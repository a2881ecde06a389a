//! What the search for entries finds, offset by offset.

use crate::ir::decode::{code_at, head_of};
use crate::ir::guest::{named_from, section_range};
use crate::ir::value::Width;
use crate::ir::words::{as_signed, lemma_extended};
use crate::vm::discover::{
    all_found, begins_before, displacement_at, first_at, holder, holds_firsts, hollow, is_found,
    jump_target, mid_instruction, padding_from, sum, swallowed, swallowed_upto, swept,
    trampoline_at, trampolines, trampolines_from, trampolines_upto, VmEntry,
};
use crate::vm::image::{covering, Image, Section};
use vstd::prelude::*;

verus! {

/// An address, as adding gives it.
pub open spec fn address(a: int) -> int {
    a % 0x1_0000_0000_0000_0000
}

/// The four bytes from a place on as a signed number, lowest byte first.
pub open spec fn signed_bytes(d: Seq<u8>, i: int) -> int {
    let v = d[i] + 0x100 * d[i + 1] + 0x1_0000 * d[i + 2] + 0x100_0000 * d[i + 3];
    if v < 0x8000_0000 {
        v
    } else {
        v - 0x1_0000_0000
    }
}

/// Whether an address lies in the first section with a name. The last address of all is in
/// none.
pub open spec fn in_section(pe: Image, name: Seq<char>, va: u64) -> bool {
    exists|v: int|
        {
            &&& 0 <= v < pe.sections@.len()
            &&& (#[trigger] pe.sections@[v]).name@ == name
            &&& forall|u: int| 0 <= u < v ==> (#[trigger] pe.sections@[u]).name@ != name
            &&& pe.sections@[v].start <= va
            &&& va < pe.sections@[v].start + pe.sections@[v].virtual_size || va
                < pe.sections@[v].start + pe.sections@[v].raw_size
            &&& va < 0xffff_ffff_ffff_ffff
        }
}

/// Whether the instruction at one address ends at another.
pub open spec fn ends_at(pe: Image, a: u64, b: u64) -> bool {
    &&& a < b
    &&& code_at(pe, a) matches Some(code)
    &&& head_of(code, a) matches Some(h)
    &&& h.next_ip == b
}

/// Whether addresses are where one instruction after the other starts.
pub open spec fn starts(pe: Image, c: Seq<u64>) -> bool {
    forall|j: int| 0 <= j < c.len() - 1 ==> ends_at(pe, #[trigger] c[j], c[j + 1])
}

/// Whether instructions from one address on lead over another.
pub open spec fn leads_over(pe: Image, from: u64, va: u64, c: Seq<u64>) -> bool {
    &&& c.len() >= 2
    &&& c[0] == from
    &&& starts(pe, c)
    &&& c[c.len() - 2] < va < c[c.len() - 1]
}

/// Whether an address lies within an instruction of the function around it: the last one of
/// the table that begins no later.
pub open spec fn stepped_over(pe: Image, va: u64) -> bool {
    exists|k: int, c: Seq<u64>|
        {
            &&& 0 <= k < pe.functions@.len()
            &&& pe.functions@[k].0 <= va < pe.functions@[k].1
            &&& forall|j: int| k < j < pe.functions@.len() ==> va < (#[trigger] pe.functions@[j]).0
            &&& #[trigger] leads_over(pe, pe.functions@[k].0, va, c)
        }
}

/// Whether section `k` is searched: it holds code and is not the VM's.
pub open spec fn searched(pe: Image, name: Seq<char>, k: int) -> bool {
    0 <= k < pe.sections@.len() && pe.sections@[k].executable && pe.sections@[k].name@ != name
}

/// Whether a jump into the VM section stands at an offset of section `k`, and not within an
/// instruction.
pub open spec fn jump_at(pe: Image, name: Seq<char>, k: int, i: int, va: u64, to: u64) -> bool {
    let s = pe.sections@[k];
    &&& 0 <= i && i + 5 <= s.data@.len()
    &&& s.data@[i] == 0xe9
    &&& va == address(s.start + i)
    &&& to == address(s.start + i + 5 + signed_bytes(s.data@, i + 1))
    &&& in_section(pe, name, to)
    &&& !stepped_over(pe, va)
}

/// Whether exactly `p` padding bytes stand at a place.
pub open spec fn padded(d: Seq<u8>, i: int, p: int) -> bool {
    &&& 0 <= p && i + p <= d.len()
    &&& forall|j: int| i <= j < i + p ==> #[trigger] d[j] == 0xcc
    &&& i + p < d.len() ==> d[i + p] != 0xcc
}

/// Whether an offset belongs to the jump at another: its five bytes, the padding behind them,
/// or, where there is none, the byte behind them.
pub open spec fn belongs(d: Seq<u8>, j: int, i: int) -> bool {
    exists|p: int| #[trigger] padded(d, j + 5, p) && j < i && (i < j + 6 || i < j + 5 + p)
}

/// Whether an entry is the jump at an offset of section `k`, with its padding.
pub open spec fn is_jump(pe: Image, name: Seq<char>, k: int, i: int, e: VmEntry) -> bool {
    &&& searched(pe, name, k)
    &&& jump_at(pe, name, k, i, e.trampoline_va, e.vm_entry_va)
    &&& padded(pe.sections@[k].data@, i + 5, e.int3_padding as int)
}

/// Whether a jump into the VM section stands at an offset of section `k`.
pub open spec fn jumps_at(pe: Image, name: Seq<char>, k: int, i: int) -> bool {
    exists|va: u64, to: u64| #[trigger] jump_at(pe, name, k, i, va, to)
}

/// Whether offsets are where the trampolines of section `k` stand: every jump into the VM is
/// one, but for those that belong to one before.
pub open spec fn stand_at(pe: Image, name: Seq<char>, k: int, at: Seq<int>) -> bool {
    let d = pe.sections@[k].data@;
    &&& forall|n: int|
        0 <= n < at.len() ==> jumps_at(pe, name, k, #[trigger] at[n])
    &&& forall|n: int, m: int|
        0 <= n < m < at.len() ==> #[trigger] at[n] < #[trigger] at[m] && !belongs(d, at[n], at[m])
    &&& forall|i: int, va: u64, to: u64| #[trigger]
        jump_at(pe, name, k, i, va, to) ==> at.contains(i) || exists|n: int|
            0 <= n < at.len() && #[trigger] belongs(d, at[n], i)
}

/// Whether no address is in the contents of two sections.
pub open spec fn apart(pe: Image) -> bool {
    forall|k: int, i: int, l: int, j: int|
        0 <= k < l < pe.sections@.len() && 0 <= i < pe.sections@[k].data@.len() && 0 <= j
            < pe.sections@[l].data@.len() ==> #[trigger] address(pe.sections@[k].start + i)
            != #[trigger] address(pe.sections@[l].start + j)
}

/// Whether the contents of the image are padding from one address to another.
pub open spec fn all_padding(pe: Image, from: u64, to: u64) -> bool {
    from < to && exists|k: int|
        {
            &&& 0 <= k < pe.sections@.len()
            &&& (#[trigger] pe.sections@[k]).covers(from)
            &&& forall|j: int| 0 <= j < k ==> !(#[trigger] pe.sections@[j]).covers(from)
            &&& to - pe.sections@[k].start <= pe.sections@[k].data@.len()
            &&& forall|a: int|
                from - pe.sections@[k].start <= a < to - pe.sections@[k].start ==> #[trigger]
                    pe.sections@[k].data@[a] == 0xcc
        }
}

proof fn lemma_sum(a: u64, b: u64)
    ensures
        sum(a, b) == address(a + b),
{
    let n = 0x1_0000_0000_0000_0000int;
    if a + b < n {
        vstd::arithmetic::div_mod::lemma_small_mod((a + b) as nat, n as nat);
    } else {
        vstd::arithmetic::div_mod::lemma_mod_add_multiples_vanish(a + b - n, n);
        vstd::arithmetic::div_mod::lemma_small_mod((a + b - n) as nat, n as nat);
    }
}

proof fn lemma_target(s: Section, i: int)
    requires
        0 <= i,
        i + 5 <= s.data@.len(),
    ensures
        sum(s.start, i as u64) == address(s.start + i),
        jump_target(s, i) == address(s.start + i + 5 + signed_bytes(s.data@, i + 1)),
{
    let d = s.data@;
    assert(s.data@.len() <= usize::MAX) by {
        assert(s.data.len() == s.data@.len());
    }
    let v = d[i + 1] + 0x100 * d[i + 2] + 0x1_0000 * d[i + 3] + 0x100_0000 * d[i + 4];
    let n = 0x1_0000_0000_0000_0000int;
    lemma_extended(v as u64, Width::W32);
    let x = signed_bytes(d, i + 1);
    assert(x == as_signed(v, Width::W32));
    assert(displacement_at(d, i + 1) == x % n);
    lemma_sum(s.start, i as u64);
    let a = sum(s.start, i as u64);
    lemma_sum(a, 5);
    let b = sum(a, 5);
    lemma_sum(b, displacement_at(d, i + 1));
    vstd::arithmetic::div_mod::lemma_add_mod_noop(s.start + i, 5, n);
    vstd::arithmetic::div_mod::lemma_small_mod(5, n as nat);
    vstd::arithmetic::div_mod::lemma_add_mod_noop(s.start + i + 5, x, n);
}

proof fn lemma_named(sections: Seq<Section>, name: Seq<char>, k: int)
    requires
        0 <= k,
    ensures
        match named_from(sections, name, k) {
            Some(v) => k <= v < sections.len() && sections[v].name@ == name && forall|u: int|
                k <= u < v ==> (#[trigger] sections[u]).name@ != name,
            None => forall|u: int| k <= u < sections.len() ==> (#[trigger] sections[u]).name@ != name,
        },
    decreases sections.len() - k,
{
    if k < sections.len() && sections[k].name@ != name {
        lemma_named(sections, name, k + 1);
    }
}

proof fn lemma_in_section(pe: Image, name: Seq<char>, va: u64)
    ensures
        in_section(pe, name, va) <==> section_range(pe, name).0 <= va < section_range(pe, name).1,
{
    lemma_named(pe.sections@, name, 0);
    match named_from(pe.sections@, name, 0) {
        Some(v) => {
            if in_section(pe, name, va) {
                let u = choose|u: int|
                    {
                        &&& 0 <= u < pe.sections@.len()
                        &&& (#[trigger] pe.sections@[u]).name@ == name
                        &&& forall|x: int| 0 <= x < u ==> (#[trigger] pe.sections@[x]).name@ != name
                        &&& pe.sections@[u].start <= va
                        &&& va < pe.sections@[u].start + pe.sections@[u].virtual_size || va
                            < pe.sections@[u].start + pe.sections@[u].raw_size
                        &&& va < 0xffff_ffff_ffff_ffff
                    };
                assert(pe.sections@[v].name@ == name);
                assert(u == v);
            }
        },
        None => {},
    }
}

proof fn lemma_begins(table: Seq<(u64, u64)>, va: u64, k: int)
    requires
        0 <= k <= table.len(),
    ensures
        match begins_before(table, va, k) {
            Some(n) => 0 <= n < k && table[n].0 <= va && forall|j: int|
                n < j < k ==> va < (#[trigger] table[j]).0,
            None => forall|j: int| 0 <= j < k ==> va < (#[trigger] table[j]).0,
        },
    decreases k,
{
    if k > 0 && table[k - 1].0 > va {
        lemma_begins(table, va, k - 1);
    }
}

/// Decoding on from an address passes the starts of the instructions up to where it gets.
proof fn lemma_swept(pe: Image, ip: u64, va: u64) -> (c: Seq<u64>)
    requires
        swept(pe, ip, va) is Some,
    ensures
        c.len() >= 1,
        c[0] == ip,
        c.last() == swept(pe, ip, va)->0,
        starts(pe, c),
        forall|j: int| 0 <= j < c.len() - 1 ==> #[trigger] c[j] < va,
        c.last() >= va,
    decreases u64::MAX - ip,
{
    if ip >= va {
        seq![ip]
    } else {
        let h = head_of(code_at(pe, ip)->0, ip)->0;
        let rest = lemma_swept(pe, h.next_ip, va);
        let c = seq![ip] + rest;
        assert forall|j: int| 0 <= j < c.len() - 1 implies ends_at(pe, #[trigger] c[j], c[j + 1]) by {
            if j > 0 {
                assert(c[j] == rest[j - 1]);
                assert(ends_at(pe, rest[j - 1], rest[j]));
            }
        }
        assert forall|j: int| 0 <= j < c.len() - 1 implies #[trigger] c[j] < va by {
            if j > 0 {
                assert(c[j] == rest[j - 1]);
            }
        }
        c
    }
}

/// Instructions that lead over an address are where decoding gets past it.
proof fn lemma_passed(pe: Image, c: Seq<u64>, va: u64)
    requires
        c.len() >= 2,
        starts(pe, c),
        c[c.len() - 2] < va < c[c.len() - 1],
    ensures
        swept(pe, c[0], va) == Some(c.last()),
    decreases c.len(),
{
    assert(ends_at(pe, c[0], c[1]));
    lemma_ascends(pe, c, c.len() - 2);
    if c.len() > 2 {
        let rest = c.skip(1);
        assert forall|j: int| 0 <= j < rest.len() - 1 implies ends_at(
            pe,
            #[trigger] rest[j],
            rest[j + 1],
        ) by {
            assert(rest[j] == c[j + 1]);
            assert(ends_at(pe, c[j + 1], c[j + 2]));
        }
        lemma_passed(pe, rest, va);
    } else {
        assert(swept(pe, c[1], va) == Some(c[1]));
    }
}

proof fn lemma_ascends(pe: Image, c: Seq<u64>, k: int)
    requires
        starts(pe, c),
        0 <= k < c.len(),
    ensures
        c[0] <= c[k],
    decreases k,
{
    if k > 0 {
        lemma_ascends(pe, c, k - 1);
        assert(ends_at(pe, c[k - 1], c[k]));
    }
}

proof fn lemma_stepped_over(pe: Image, va: u64)
    ensures
        mid_instruction(pe, va) <==> stepped_over(pe, va),
{
    let table = pe.functions@;
    lemma_begins(table, va, table.len() as int);
    if mid_instruction(pe, va) {
        let k = begins_before(table, va, table.len() as int)->0;
        let c = lemma_swept(pe, table[k].0, va);
        assert(c.len() >= 2);
        assert(leads_over(pe, table[k].0, va, c));
    }
    if stepped_over(pe, va) {
        let (k, c) = choose|k: int, c: Seq<u64>|
            {
                &&& 0 <= k < pe.functions@.len()
                &&& pe.functions@[k].0 <= va < pe.functions@[k].1
                &&& forall|j: int|
                    k < j < pe.functions@.len() ==> va < (#[trigger] pe.functions@[j]).0
                &&& #[trigger] leads_over(pe, pe.functions@[k].0, va, c)
            };
        let n = begins_before(table, va, table.len() as int)->0;
        if n < k {
            assert(va < table[k].0);
        } else if k < n {
            assert(va < table[n].0);
        }
        lemma_passed(pe, c, va);
    }
}

proof fn lemma_padding(d: Seq<u8>, i: int)
    requires
        0 <= i <= d.len(),
    ensures
        padded(d, i, padding_from(d, i) as int),
    decreases d.len() - i,
{
    if i < d.len() && d[i] == 0xcc {
        lemma_padding(d, i + 1);
        let p = padding_from(d, i);
        assert forall|j: int| i <= j < i + p implies #[trigger] d[j] == 0xcc by {
            if j > i {
                assert(i + 1 <= j < i + 1 + padding_from(d, i + 1));
            }
        }
    }
}

proof fn lemma_padding_unique(d: Seq<u8>, i: int, p: int, q: int)
    requires
        padded(d, i, p),
        padded(d, i, q),
    ensures
        p == q,
{
    if p < q {
        assert(d[i + p] == 0xcc);
    } else if q < p {
        assert(d[i + q] == 0xcc);
    }
}

/// What the search takes for a trampoline is a jump into the VM, and the other way round.
proof fn lemma_trampoline(pe: Image, name: Seq<char>, k: int, i: int)
    requires
        0 <= k < pe.sections@.len(),
        0 <= i,
        i + 5 <= pe.sections@[k].data@.len(),
    ensures
        trampoline_at(pe, pe.sections@[k], section_range(pe, name), i) <==> jump_at(
            pe,
            name,
            k,
            i,
            sum(pe.sections@[k].start, i as u64),
            jump_target(pe.sections@[k], i),
        ),
        forall|va: u64, to: u64| #[trigger]
            jump_at(pe, name, k, i, va, to) ==> va == sum(pe.sections@[k].start, i as u64) && to
                == jump_target(pe.sections@[k], i),
{
    let s = pe.sections@[k];
    lemma_target(s, i);
    lemma_in_section(pe, name, jump_target(s, i));
    lemma_stepped_over(pe, sum(s.start, i as u64));
}

/// The entry at an offset of a section.
spec fn entry_at(s: Section, i: int) -> VmEntry {
    VmEntry {
        trampoline_va: sum(s.start, i as u64),
        vm_entry_va: jump_target(s, i),
        int3_padding: padding_from(s.data@, i + 5) as usize,
    }
}

spec fn entries_at(s: Section, at: Seq<int>) -> Seq<VmEntry> {
    Seq::new(at.len(), |n: int| entry_at(s, at[n]))
}

/// Where the trampolines from a place on stand.
spec fn scanned_from(pe: Image, name: Seq<char>, k: int, i: int, at: Seq<int>) -> bool {
    let s = pe.sections@[k];
    let d = s.data@;
    &&& trampolines_from(pe, s, section_range(pe, name), i) == entries_at(s, at)
    &&& forall|n: int|
        0 <= n < at.len() ==> i <= #[trigger] at[n] && at[n] + 5 <= d.len() && trampoline_at(
            pe,
            s,
            section_range(pe, name),
            at[n],
        )
    &&& forall|n: int, m: int|
        0 <= n < m < at.len() ==> #[trigger] at[n] < #[trigger] at[m] && !belongs(d, at[n], at[m])
    &&& forall|j: int|
        i <= j && j + 5 <= d.len() && #[trigger] trampoline_at(
            pe,
            s,
            section_range(pe, name),
            j,
        ) ==> at.contains(j) || exists|n: int| 0 <= n < at.len() && #[trigger] belongs(d, at[n], j)
}

proof fn lemma_scanned(pe: Image, name: Seq<char>, k: int, i: int) -> (at: Seq<int>)
    requires
        0 <= k < pe.sections@.len(),
        0 <= i,
    ensures
        scanned_from(pe, name, k, i, at),
    decreases
            if i <= pe.sections@[k].data@.len() {
                pe.sections@[k].data@.len() - i
            } else {
                0
            },
{
    let s = pe.sections@[k];
    let d = s.data@;
    let vm = section_range(pe, name);
    if i + 5 > d.len() {
        let at = Seq::<int>::empty();
        assert(trampolines_from(pe, s, vm, i) =~= entries_at(s, at));
        at
    } else if trampoline_at(pe, s, vm, i) {
        let p = padding_from(d, i + 5) as int;
        lemma_padding(d, i + 5);
        let next = i + 5 + if p > 1 {
            p
        } else {
            1
        };
        let rest = lemma_scanned(pe, name, k, next);
        let at = seq![i] + rest;
        assert(trampolines_from(pe, s, vm, i) =~= entries_at(s, at));
        assert forall|n: int, m: int| 0 <= n < m < at.len() implies #[trigger] at[n]
            < #[trigger] at[m] && !belongs(d, at[n], at[m]) by {
            assert(at[m] == rest[m - 1]);
            if n == 0 {
                if belongs(d, i, at[m]) {
                    let q = choose|q: int| #[trigger] padded(d, i + 5, q) && i < at[m] && (at[m] < i
                        + 6 || at[m] < i + 5 + q);
                    lemma_padding_unique(d, i + 5, p, q);
                }
            } else {
                assert(at[n] == rest[n - 1]);
            }
        }
        assert forall|j: int| i <= j && j + 5 <= d.len() && #[trigger] trampoline_at(pe, s, vm, j) implies at.contains(
            j,
        ) || exists|n: int| 0 <= n < at.len() && #[trigger] belongs(d, at[n], j) by {
            if j == i {
                assert(at[0] == j);
            } else if j < next {
                assert(belongs(d, i, j));
                assert(belongs(d, at[0], j));
            } else if rest.contains(j) {
                let n = choose|n: int| 0 <= n < rest.len() && rest[n] == j;
                assert(at[n + 1] == j);
            } else {
                let n = choose|n: int| 0 <= n < rest.len() && #[trigger] belongs(d, rest[n], j);
                assert(at[n + 1] == rest[n]);
            }
        }
        assert forall|n: int| 0 <= n < at.len() implies i <= #[trigger] at[n] && at[n] + 5
            <= d.len() && trampoline_at(pe, s, vm, at[n]) by {
            if n > 0 {
                assert(at[n] == rest[n - 1]);
            }
        }
        at
    } else {
        lemma_scanned(pe, name, k, i + 1)
    }
}

proof fn lemma_stand(pe: Image, name: Seq<char>, k: int, at: Seq<int>)
    requires
        0 <= k < pe.sections@.len(),
        scanned_from(pe, name, k, 0, at),
    ensures
        stand_at(pe, name, k, at),
        searched(pe, name, k) ==> forall|n: int|
            0 <= n < at.len() ==> is_jump(
                pe,
                name,
                k,
                #[trigger] at[n],
                entry_at(pe.sections@[k], at[n]),
            ),
{
    let s = pe.sections@[k];
    let vm = section_range(pe, name);
    assert(s.data@.len() <= usize::MAX) by {
        assert(s.data.len() == s.data@.len());
    }
    assert forall|n: int| 0 <= n < at.len() implies jumps_at(pe, name, k, #[trigger] at[n]) by {
        lemma_trampoline(pe, name, k, at[n]);
        assert(jump_at(pe, name, k, at[n], sum(s.start, at[n] as u64), jump_target(s, at[n])));
    }
    assert forall|i: int, va: u64, to: u64| #[trigger]
        jump_at(pe, name, k, i, va, to) implies at.contains(i) || exists|n: int|
        0 <= n < at.len() && #[trigger] belongs(s.data@, at[n], i) by {
        lemma_trampoline(pe, name, k, i);
        assert(trampoline_at(pe, s, vm, i));
    }
    if searched(pe, name, k) {
        assert forall|n: int| 0 <= n < at.len() implies is_jump(
            pe,
            name,
            k,
            #[trigger] at[n],
            entry_at(s, at[n]),
        ) by {
            lemma_trampoline(pe, name, k, at[n]);
            lemma_padding(s.data@, at[n] + 5);
        }
    }
}

/// The trampolines of the first `k` sections hold those of each.
proof fn lemma_upto_holds(pe: Image, name: Seq<char>, k: int, l: int, e: VmEntry)
    requires
        0 <= l < k <= pe.sections@.len(),
        searched(pe, name, l),
        trampolines_from(pe, pe.sections@[l], section_range(pe, name), 0).contains(e),
    ensures
        trampolines_upto(pe, name, k).contains(e),
    decreases k,
{
    let before = trampolines_upto(pe, name, k - 1);
    if l == k - 1 {
        let more = trampolines_from(pe, pe.sections@[l], section_range(pe, name), 0);
        let n = choose|n: int| 0 <= n < more.len() && more[n] == e;
        assert(trampolines_upto(pe, name, k)[before.len() + n] == e);
    } else {
        lemma_upto_holds(pe, name, k - 1, l, e);
        let n = choose|n: int| 0 <= n < before.len() && before[n] == e;
        assert(trampolines_upto(pe, name, k)[n] == e);
    }
}

/// Each trampoline of the first `k` sections is one of some section.
proof fn lemma_upto_from(pe: Image, name: Seq<char>, k: int, e: VmEntry) -> (l: int)
    requires
        0 <= k <= pe.sections@.len(),
        trampolines_upto(pe, name, k).contains(e),
    ensures
        0 <= l < k,
        searched(pe, name, l),
        trampolines_from(pe, pe.sections@[l], section_range(pe, name), 0).contains(e),
    decreases k,
{
    let before = trampolines_upto(pe, name, k - 1);
    let all = trampolines_upto(pe, name, k);
    let n = choose|n: int| 0 <= n < all.len() && all[n] == e;
    if n < before.len() {
        assert(before[n] == e);
        lemma_upto_from(pe, name, k - 1, e)
    } else {
        let more = trampolines_from(pe, pe.sections@[k - 1], section_range(pe, name), 0);
        assert(more[n - before.len()] == e);
        k - 1
    }
}

/// A trampoline stands at an offset of a searched section.
proof fn lemma_found_jump(pe: Image, name: Seq<char>, e: VmEntry) -> (ki: (int, int))
    requires
        trampolines(pe, name).contains(e),
    ensures
        is_jump(pe, name, ki.0, ki.1, e),
{
    let k = lemma_upto_from(pe, name, pe.sections@.len() as int, e);
    let at = lemma_scanned(pe, name, k, 0);
    lemma_stand(pe, name, k, at);
    let list = entries_at(pe.sections@[k], at);
    let n = choose|n: int| 0 <= n < list.len() && list[n] == e;
    assert(is_jump(pe, name, k, at[n], entry_at(pe.sections@[k], at[n])));
    (k, at[n])
}

proof fn lemma_in_result(pe: Image, name: Seq<char>, r: Seq<VmEntry>, e: VmEntry)
    requires
        holds_firsts(all_found(pe, name), r),
        trampolines(pe, name).contains(e),
    ensures
        is_found(r, e.trampoline_va),
        apart(pe) ==> r.contains(e),
{
    let found = trampolines(pe, name);
    let all = all_found(pe, name);
    let i = choose|i: int| 0 <= i < found.len() && found[i] == e;
    assert(all[i] == e);
    let k = lemma_first(all, i);
    assert(r.contains(all[k]));
    let j = choose|j: int| 0 <= j < r.len() && r[j] == all[k];
    assert(r[j].trampoline_va == e.trampoline_va);
    if apart(pe) {
        assert(found[k] == all[k]);
        assert(found.contains(found[k]));
        let (l, a) = lemma_found_jump(pe, name, e);
        let (m, b) = lemma_found_jump(pe, name, found[k]);
        let (sl, sm) = (pe.sections@[l], pe.sections@[m]);
        assert(address(sl.start + a) == address(sm.start + b));
        if l < m {
            assert(address(pe.sections@[l].start + a) != address(pe.sections@[m].start + b));
        } else if m < l {
            assert(address(pe.sections@[m].start + b) != address(pe.sections@[l].start + a));
        }
        lemma_offsets(sl, a, b);
        lemma_padding_unique(sl.data@, a + 5, e.int3_padding as int, found[k].int3_padding as int);
    }
}

/// Two offsets of one section have two addresses.
proof fn lemma_offsets(s: Section, a: int, b: int)
    requires
        0 <= a < s.data@.len(),
        0 <= b < s.data@.len(),
        address(s.start + a) == address(s.start + b),
    ensures
        a == b,
{
    assert(s.data@.len() <= usize::MAX) by {
        assert(s.data.len() == s.data@.len());
    }
    let n = 0x1_0000_0000_0000_0000int;
    vstd::arithmetic::div_mod::lemma_fundamental_div_mod(s.start + a, n);
    vstd::arithmetic::div_mod::lemma_fundamental_div_mod(s.start + b, n);
    let (qa, qb) = ((s.start + a) / n, (s.start + b) / n);
    assert(a - b == n * qa - n * qb);
    assert(n * qa - n * qb == n * (qa - qb)) by (nonlinear_arith);
    assert(-n < a - b < n);
    if qa != qb {
        assert(n * (qa - qb) >= n || n * (qa - qb) <= -n) by (nonlinear_arith)
            requires
                qa != qb,
                n > 0,
        ;
    }
}

/// Where an address is in a list, it is there for the first time somewhere.
proof fn lemma_first(all: Seq<VmEntry>, i: int) -> (k: int)
    requires
        0 <= i < all.len(),
    ensures
        0 <= k <= i,
        all[k].trampoline_va == all[i].trampoline_va,
        first_at(all, all[k], k),
    decreases i,
{
    if exists|j: int| 0 <= j < i && (#[trigger] all[j]).trampoline_va == all[i].trampoline_va {
        let j = choose|j: int|
            0 <= j < i && (#[trigger] all[j]).trampoline_va == all[i].trampoline_va;
        lemma_first(all, j)
    } else {
        i
    }
}

/// Every jump into the VM section is an entry: at each offset of a section that holds code
/// and is not the VM's, where the byte of a jump stands whose target lies in the VM section
/// and which is not within an instruction, unless the offset belongs to such a jump before
/// it. Where no address is in two sections, the entry has the jump's target and padding.
pub proof fn no_jump_into_the_vm_is_missed(
    pe: Image,
    name: Seq<char>,
    r: Seq<VmEntry>,
    k: int,
    i: int,
    va: u64,
    to: u64,
)
    requires
        holds_firsts(all_found(pe, name), r),
        searched(pe, name, k),
        jump_at(pe, name, k, i, va, to),
    ensures
        is_found(r, va) || exists|j: int, vj: u64, tj: u64|
            #![trigger jump_at(pe, name, k, j, vj, tj)]
            jump_at(pe, name, k, j, vj, tj) && belongs(pe.sections@[k].data@, j, i) && is_found(
                r,
                vj,
            ),
        apart(pe) ==> (exists|e: VmEntry|
            #![trigger r.contains(e)]
            r.contains(e) && is_jump(pe, name, k, i, e)) || exists|j: int, e: VmEntry|
            #![trigger is_jump(pe, name, k, j, e)]
            belongs(pe.sections@[k].data@, j, i) && is_jump(pe, name, k, j, e) && r.contains(e),
{
    let s = pe.sections@[k];
    let at = lemma_scanned(pe, name, k, 0);
    lemma_stand(pe, name, k, at);
    let list = entries_at(s, at);
    let j = if at.contains(i) {
        i
    } else {
        let n = choose|n: int| 0 <= n < at.len() && #[trigger] belongs(s.data@, at[n], i);
        at[n]
    };
    assert(at.contains(j)) by {
        if !at.contains(i) {
            let n = choose|n: int| 0 <= n < at.len() && #[trigger] belongs(s.data@, at[n], i);
            assert(at[n] == j);
        }
    }
    let n = choose|n: int| 0 <= n < at.len() && at[n] == j;
    let e = entry_at(s, j);
    assert(list[n] == e);
    assert(list.contains(e));
    assert(is_jump(pe, name, k, at[n], entry_at(s, at[n])));
    lemma_upto_holds(pe, name, pe.sections@.len() as int, k, e);
    lemma_in_result(pe, name, r, e);
    assert(jump_at(pe, name, k, j, e.trampoline_va, e.vm_entry_va));
    lemma_trampoline(pe, name, k, j);
    if j == i {
        assert(va == e.trampoline_va);
    }
}

proof fn lemma_swallowed_from(
    pe: Image,
    vm: (u64, u64),
    found: Seq<VmEntry>,
    k: int,
    e: VmEntry,
) -> (q: int)
    requires
        0 <= k <= pe.functions@.len(),
        swallowed_upto(pe, vm, found, k).contains(e),
    ensures
        0 <= q < k,
        swallowed(pe, vm, found, pe.functions@[q]) == Some(e),
    decreases k,
{
    let all = swallowed_upto(pe, vm, found, k);
    let before = swallowed_upto(pe, vm, found, k - 1);
    let n = choose|n: int| 0 <= n < all.len() && all[n] == e;
    if n < before.len() {
        assert(before[n] == e);
        lemma_swallowed_from(pe, vm, found, k - 1, e)
    } else {
        k - 1
    }
}

proof fn lemma_swallowed_holds(
    pe: Image,
    vm: (u64, u64),
    found: Seq<VmEntry>,
    k: int,
    q: int,
)
    requires
        0 <= q < k <= pe.functions@.len(),
        swallowed(pe, vm, found, pe.functions@[q]) is Some,
    ensures
        swallowed_upto(pe, vm, found, k).contains(swallowed(pe, vm, found, pe.functions@[q])->0),
    decreases k,
{
    let all = swallowed_upto(pe, vm, found, k);
    let before = swallowed_upto(pe, vm, found, k - 1);
    let e = swallowed(pe, vm, found, pe.functions@[q])->0;
    if q == k - 1 {
        assert(all[before.len() as int] == e);
    } else {
        lemma_swallowed_holds(pe, vm, found, k - 1, q);
        let n = choose|n: int| 0 <= n < before.len() && before[n] == e;
        assert(all[n] == e);
    }
}

proof fn lemma_holder(found: Seq<VmEntry>, f: (u64, u64), k: int)
    requires
        0 <= k,
    ensures
        match holder(found, f, k) {
            Some(n) => k <= n < found.len() && found[n].trampoline_va <= f.0 && f.1
                <= crate::vm::discover::trampoline_end(found[n]),
            None => forall|n: int|
                k <= n < found.len() ==> !((#[trigger] found[n]).trampoline_va <= f.0 && f.1
                    <= crate::vm::discover::trampoline_end(found[n])),
        },
    decreases found.len() - k,
{
    if k < found.len() && !(found[k].trampoline_va <= f.0 && f.1
        <= crate::vm::discover::trampoline_end(found[k])) {
        lemma_holder(found, f, k + 1);
    }
}

proof fn lemma_hollow(pe: Image, f: (u64, u64))
    ensures
        hollow(pe, f) <==> all_padding(pe, f.0, f.1),
{
    lemma_covering(pe.sections@, f.0, 0);
    if hollow(pe, f) {
        let k = pe.section_index(f.0)->0;
        let body = pe.code_spec(f.0, f.1 - f.0)->0;
        let s = pe.sections@[k];
        assert forall|a: int| f.0 - s.start <= a < f.1 - s.start implies #[trigger] s.data@[a]
            == 0xcc by {
            assert(body[a - (f.0 - s.start)] == 0xcc);
        }
    }
    if all_padding(pe, f.0, f.1) {
        let k = choose|k: int|
            {
                &&& 0 <= k < pe.sections@.len()
                &&& (#[trigger] pe.sections@[k]).covers(f.0)
                &&& forall|j: int| 0 <= j < k ==> !(#[trigger] pe.sections@[j]).covers(f.0)
                &&& f.1 - pe.sections@[k].start <= pe.sections@[k].data@.len()
                &&& forall|a: int|
                    f.0 - pe.sections@[k].start <= a < f.1 - pe.sections@[k].start ==> #[trigger]
                        pe.sections@[k].data@[a] == 0xcc
            };
        assert(pe.section_index(f.0) == Some(k));
    }
}

proof fn lemma_covering(sections: Seq<Section>, va: u64, k: int)
    requires
        0 <= k,
    ensures
        match covering(sections, va, k) {
            Some(n) => k <= n < sections.len() && sections[n].covers(va) && forall|j: int|
                k <= j < n ==> !(#[trigger] sections[j]).covers(va),
            None => forall|j: int| k <= j < sections.len() ==> !(#[trigger] sections[j]).covers(va),
        },
    decreases sections.len() - k,
{
    if k < sections.len() && !sections[k].covers(va) {
        lemma_covering(sections, va, k + 1);
    }
}

/// Whether an entry is that of function `f`, which the padding of the jump `t` swallowed:
/// nothing but padding is left of it, and it is neither in the VM section nor such a jump.
pub open spec fn is_swallowed(
    pe: Image,
    name: Seq<char>,
    f: (u64, u64),
    k: int,
    i: int,
    t: VmEntry,
    e: VmEntry,
) -> bool {
    &&& pe.functions@.contains(f)
    &&& all_padding(pe, f.0, f.1)
    &&& !in_section(pe, name, f.0)
    &&& is_jump(pe, name, k, i, t)
    &&& t.trampoline_va <= f.0 && f.1 <= address(t.trampoline_va + 5 + t.int3_padding)
    &&& e == (VmEntry { trampoline_va: f.0, vm_entry_va: t.vm_entry_va, int3_padding: 0 })
}

proof fn lemma_end(t: VmEntry)
    ensures
        crate::vm::discover::trampoline_end(t) == address(t.trampoline_va + 5 + t.int3_padding),
{
    let n = 0x1_0000_0000_0000_0000int;
    lemma_sum(t.trampoline_va, 5);
    lemma_sum(sum(t.trampoline_va, 5), t.int3_padding as u64);
    vstd::arithmetic::div_mod::lemma_small_mod(t.int3_padding as nat, n as nat);
    vstd::arithmetic::div_mod::lemma_add_mod_noop(t.trampoline_va + 5, t.int3_padding as int, n);
}

/// Every entry is a jump into the VM section, with its target and the padding behind it, or a
/// function that the padding of such a jump swallowed, with the target of that jump.
pub proof fn every_entry_leads_into_the_vm(
    pe: Image,
    name: Seq<char>,
    r: Seq<VmEntry>,
    e: VmEntry,
)
    requires
        holds_firsts(all_found(pe, name), r),
        r.contains(e),
    ensures
        in_section(pe, name, e.vm_entry_va),
        (exists|k: int, i: int| #[trigger] is_jump(pe, name, k, i, e)) || (exists|
            f: (u64, u64),
            k: int,
            i: int,
            t: VmEntry,
        | #[trigger] is_swallowed(pe, name, f, k, i, t, e)),
{
    let found = trampolines(pe, name);
    let vm = section_range(pe, name);
    let all = all_found(pe, name);
    let n = choose|n: int| #[trigger] first_at(all, e, n);
    if n < found.len() {
        assert(found[n] == e);
        let (k, i) = lemma_found_jump(pe, name, e);
        assert(is_jump(pe, name, k, i, e));
    } else {
        let more = swallowed_upto(pe, vm, found, pe.functions@.len() as int);
        assert(more[n - found.len()] == e);
        let q = lemma_swallowed_from(pe, vm, found, pe.functions@.len() as int, e);
        let f = pe.functions@[q];
        lemma_holder(found, f, 0);
        let t = found[holder(found, f, 0)->0];
        assert(found.contains(t));
        let (k, i) = lemma_found_jump(pe, name, t);
        lemma_end(t);
        lemma_hollow(pe, f);
        lemma_in_section(pe, name, f.0);
        assert(is_swallowed(pe, name, f, k, i, t, e));
    }
}

/// Where no address is in two sections, a jump among the entries is a trampoline.
proof fn lemma_reported(pe: Image, name: Seq<char>, r: Seq<VmEntry>, k: int, i: int, e: VmEntry)
    requires
        holds_firsts(all_found(pe, name), r),
        r.contains(e),
        is_jump(pe, name, k, i, e),
        apart(pe),
    ensures
        trampolines(pe, name).contains(e),
{
    let found = trampolines(pe, name);
    let vm = section_range(pe, name);
    let all = all_found(pe, name);
    let n = choose|n: int| #[trigger] first_at(all, e, n);
    if n < found.len() {
        assert(found[n] == e);
    } else {
        let more = swallowed_upto(pe, vm, found, pe.functions@.len() as int);
        assert(more[n - found.len()] == e);
        let q = lemma_swallowed_from(pe, vm, found, pe.functions@.len() as int, e);
        let f = pe.functions@[q];
        lemma_hollow(pe, f);
        let c = choose|c: int|
            {
                &&& 0 <= c < pe.sections@.len()
                &&& (#[trigger] pe.sections@[c]).covers(f.0)
                &&& forall|j: int| 0 <= j < c ==> !(#[trigger] pe.sections@[j]).covers(f.0)
                &&& f.1 - pe.sections@[c].start <= pe.sections@[c].data@.len()
                &&& forall|a: int|
                    f.0 - pe.sections@[c].start <= a < f.1 - pe.sections@[c].start ==> #[trigger]
                        pe.sections@[c].data@[a] == 0xcc
            };
        let b = f.0 - pe.sections@[c].start;
        vstd::arithmetic::div_mod::lemma_small_mod(f.0 as nat, 0x1_0000_0000_0000_0000nat);
        assert(address(pe.sections@[c].start + b) == address(pe.sections@[k].start + i));
        assert(pe.sections@[c].data@[b] == 0xcc);
        if c < k {
            assert(address(pe.sections@[c].start + b) != address(pe.sections@[k].start + i));
        } else if k < c {
            assert(address(pe.sections@[k].start + i) != address(pe.sections@[c].start + b));
        } else {
            lemma_offsets(pe.sections@[k], i, b);
        }
        assert(false);
    }
}

/// What belongs to a jump is no entry of its own: of two jumps of one section among the
/// entries neither stands in the bytes of the other.
pub proof fn entries_do_not_overlap(
    pe: Image,
    name: Seq<char>,
    r: Seq<VmEntry>,
    k: int,
    i: int,
    j: int,
    a: VmEntry,
    b: VmEntry,
)
    requires
        holds_firsts(all_found(pe, name), r),
        apart(pe),
        r.contains(a),
        r.contains(b),
        is_jump(pe, name, k, i, a),
        is_jump(pe, name, k, j, b),
    ensures
        !belongs(pe.sections@[k].data@, i, j),
{
    let s = pe.sections@[k];
    let at = lemma_scanned(pe, name, k, 0);
    lemma_stand(pe, name, k, at);
    lemma_reported(pe, name, r, k, i, a);
    lemma_reported(pe, name, r, k, j, b);
    lemma_scanned_at(pe, name, k, at, i, a);
    lemma_scanned_at(pe, name, k, at, j, b);
    let n = choose|n: int| 0 <= n < at.len() && at[n] == i;
    let m = choose|m: int| 0 <= m < at.len() && at[m] == j;
    if n < m {
        assert(at[n] < at[m]);
    } else if m < n {
        assert(at[m] < at[n]);
    }
}

proof fn lemma_scanned_at(pe: Image, name: Seq<char>, k: int, at: Seq<int>, i: int, e: VmEntry)
    requires
        apart(pe),
        scanned_from(pe, name, k, 0, at),
        trampolines(pe, name).contains(e),
        is_jump(pe, name, k, i, e),
    ensures
        at.contains(i),
{
    let l = lemma_upto_from(pe, name, pe.sections@.len() as int, e);
    let bt = lemma_scanned(pe, name, l, 0);
    lemma_stand(pe, name, l, bt);
    let list = entries_at(pe.sections@[l], bt);
    let n = choose|n: int| 0 <= n < list.len() && list[n] == e;
    let b = bt[n];
    assert(is_jump(pe, name, l, bt[n], entry_at(pe.sections@[l], bt[n])));
    assert(address(pe.sections@[l].start + b) == address(pe.sections@[k].start + i));
    if l < k {
        assert(address(pe.sections@[l].start + b) != address(pe.sections@[k].start + i));
    } else if k < l {
        assert(address(pe.sections@[k].start + i) != address(pe.sections@[l].start + b));
    }
    lemma_offsets(pe.sections@[k], i, b);
    let mine = entries_at(pe.sections@[k], at);
    assert(list == mine);
    assert(mine[n] == entry_at(pe.sections@[k], at[n]));
    lemma_stand(pe, name, k, at);
    assert(is_jump(pe, name, k, at[n], entry_at(pe.sections@[k], at[n])));
    lemma_offsets(pe.sections@[k], i, at[n]);
}

/// Every function that the padding of an entry's jump swallowed is an entry.
pub proof fn no_swallowed_function_is_missed(
    pe: Image,
    name: Seq<char>,
    r: Seq<VmEntry>,
    f: (u64, u64),
    k: int,
    i: int,
    t: VmEntry,
)
    requires
        holds_firsts(all_found(pe, name), r),
        apart(pe),
        r.contains(t),
        is_swallowed(
            pe,
            name,
            f,
            k,
            i,
            t,
            VmEntry { trampoline_va: f.0, vm_entry_va: t.vm_entry_va, int3_padding: 0 },
        ),
    ensures
        is_found(r, f.0),
{
    let found = trampolines(pe, name);
    let vm = section_range(pe, name);
    let all = all_found(pe, name);
    lemma_reported(pe, name, r, k, i, t);
    if is_found(found, f.0) {
        let n = choose|n: int| 0 <= n < found.len() && (#[trigger] found[n]).trampoline_va == f.0;
        assert(found.contains(found[n]));
        lemma_in_result(pe, name, r, found[n]);
    } else {
        let q = choose|q: int| 0 <= q < pe.functions@.len() && pe.functions@[q] == f;
        let n = choose|n: int| 0 <= n < found.len() && found[n] == t;
        lemma_end(t);
        lemma_hollow(pe, f);
        lemma_in_section(pe, name, f.0);
        lemma_holder(found, f, 0);
        assert(found[n].trampoline_va <= f.0);
        assert(swallowed(pe, vm, found, f) is Some);
        lemma_swallowed_holds(pe, vm, found, pe.functions@.len() as int, q);
        let more = swallowed_upto(pe, vm, found, pe.functions@.len() as int);
        let e = swallowed(pe, vm, found, f)->0;
        let m = choose|m: int| 0 <= m < more.len() && more[m] == e;
        assert(all[found.len() + m] == e);
        let x = lemma_first(all, found.len() + m);
        assert(r.contains(all[x]));
        let y = choose|y: int| 0 <= y < r.len() && r[y] == all[x];
        assert(r[y].trampoline_va == f.0);
    }
}

} // verus!
