//! Finding where virtualized functions are entered.

use crate::ir::decode::{code_at, decode_at, head_of};
use crate::ir::fold::{sign_extend, sign_extend_spec};
use crate::ir::expr::same_text;
use crate::ir::guest::{named_from, range_of, section_range};
use crate::ir::value::Width;
use crate::vm::image::{covering, Image, Section};
use vstd::prelude::*;

verus! {

/// The first byte of a jump with a 32-bit displacement.
pub const JUMP: u8 = 0xe9;

/// Padding between functions, and the body of a function that was taken away.
pub const BREAK: u8 = 0xcc;

/// Where a virtualized function is entered.
#[derive(Debug, Clone, Copy, PartialEq, Eq, Structural)]
pub struct VmEntry {
    /// Address of the trampoline, or the start of the body for a swallowed function, in the
    /// original code section.
    pub trampoline_va: u64,
    /// Address inside the VM section that the trampoline jumps to.
    pub vm_entry_va: u64,
    /// Number of padding bytes directly following the jump. Zero for swallowed functions,
    /// which have no jump of their own.
    pub int3_padding: usize,
}

/// `a + b`, as addresses are computed.
pub open spec fn sum(a: u64, b: u64) -> u64 {
    vstd::wrapping::u64_specs::wrapping_add(a, b)
}

/// Where decoding one instruction after the other from `ip` first gets to or past an
/// address; `None` where bytes before it are no instruction.
pub open spec fn swept(pe: Image, ip: u64, va: u64) -> Option<u64>
    decreases u64::MAX - ip,
{
    if ip >= va {
        Some(ip)
    } else {
        match code_at(pe, ip) {
            Some(code) => match head_of(code, ip) {
                Some(h) => if h.next_ip > ip {
                    swept(pe, h.next_ip, va)
                } else {
                    None
                },
                None => None,
            },
            None => None,
        }
    }
}

/// The last of the first `k` functions that begins at or before an address.
pub open spec fn begins_before(table: Seq<(u64, u64)>, va: u64, k: int) -> Option<int>
    decreases k,
{
    if k <= 0 {
        None
    } else if table[k - 1].0 <= va {
        Some(k - 1)
    } else {
        begins_before(table, va, k - 1)
    }
}

/// Whether an address lies within an instruction: decoding from the start of the function
/// around it steps over it.
pub open spec fn mid_instruction(pe: Image, va: u64) -> bool {
    match begins_before(pe.functions@, va, pe.functions@.len() as int) {
        Some(k) => va < pe.functions@[k].1 && match swept(pe, pe.functions@[k].0, va) {
            Some(ip) => ip != va,
            None => false,
        },
        None => false,
    }
}

/// Whether a jump at `va` is contradicted by the instruction stream.
///
/// A real trampoline is the first instruction of a function, so it always sits on an
/// instruction boundary. A chance jump byte inside some other instruction's encoding does
/// not. That difference is the only thing separating the two, and the unwind table gives a
/// trustworthy place to start decoding from to tell them apart. Where the table does not
/// cover the address, or bytes before it cannot be decoded, there is no evidence either way.
pub fn is_mid_instruction(pe: &Image, va: u64) -> (r: bool)
    ensures
        r == mid_instruction(*pe, va),
{
    let mut k: usize = pe.functions.len();
    while k > 0 && pe.functions[k - 1].0 > va
        invariant
            k <= pe.functions@.len(),
            begins_before(pe.functions@, va, pe.functions@.len() as int) == begins_before(
                pe.functions@,
                va,
                k as int,
            ),
        decreases k,
    {
        k = k - 1;
    }
    if k == 0 {
        return false;
    }
    let (begin, end) = pe.functions[k - 1];
    if va >= end {
        return false;
    }
    let mut ip: u64 = begin;
    while ip < va
        invariant
            swept(*pe, begin, va) == swept(*pe, ip, va),
            k > 0,
            k <= pe.functions@.len(),
            pe.functions@[k - 1] == (begin, end),
            va < end,
            begin <= va,
            begins_before(pe.functions@, va, pe.functions@.len() as int) == Some(k - 1),
        decreases u64::MAX - ip,
    {
        match decode_at(pe, ip) {
            Some(i) => {
                if i.head.next_ip <= ip {
                    return false;
                }
                ip = i.head.next_ip;
            },
            None => {
                return false;
            },
        }
    }
    ip != va
}

/// The 32-bit displacement that stands at a place, as a signed number.
pub open spec fn displacement_at(data: Seq<u8>, i: int) -> u64 {
    sign_extend_spec(
        (data[i] as int + 0x100 * data[i + 1] as int + 0x1_0000 * data[i + 2] as int + 0x100_0000
            * data[i + 3] as int) as u64,
        Width::W32,
    )
}

/// Where the jump at a place of a section leads.
pub open spec fn jump_target(s: Section, i: int) -> u64 {
    sum(sum(sum(s.start, i as u64), 5), displacement_at(s.data@, i + 1))
}

/// Whether a trampoline into the VM section stands at a place.
pub open spec fn trampoline_at(pe: Image, s: Section, vm: (u64, u64), i: int) -> bool {
    &&& s.data@[i] == JUMP
    &&& vm.0 <= jump_target(s, i) < vm.1
    &&& !mid_instruction(pe, sum(s.start, i as u64))
}

/// How many padding bytes stand from a place on.
pub open spec fn padding_from(data: Seq<u8>, i: int) -> nat
    decreases data.len() - i,
{
    if i < 0 || i >= data.len() || data[i] != BREAK {
        0
    } else {
        1 + padding_from(data, i + 1)
    }
}

/// The trampolines of a section from a place on. Behind one and its padding the search goes
/// on with the byte after next at the earliest.
pub open spec fn trampolines_from(pe: Image, s: Section, vm: (u64, u64), i: int) -> Seq<VmEntry>
    decreases
        if i <= s.data@.len() {
            s.data@.len() - i
        } else {
            0
        },
{
    if i < 0 || i + 5 > s.data@.len() {
        Seq::empty()
    } else if trampoline_at(pe, s, vm, i) {
        let p = padding_from(s.data@, i + 5);
        seq![
            VmEntry {
                trampoline_va: sum(s.start, i as u64),
                vm_entry_va: jump_target(s, i),
                int3_padding: p as usize,
            },
        ] + trampolines_from(
            pe,
            s,
            vm,
            i + 5 + if p > 1 {
                p as int
            } else {
                1
            },
        )
    } else {
        trampolines_from(pe, s, vm, i + 1)
    }
}

/// The trampolines of the first `k` sections, but for the VM section's own.
pub open spec fn trampolines_upto(pe: Image, name: Seq<char>, k: int) -> Seq<VmEntry>
    decreases k,
{
    if k <= 0 {
        Seq::empty()
    } else {
        let s = pe.sections@[k - 1];
        trampolines_upto(pe, name, k - 1) + if s.name@ != name && s.executable {
            trampolines_from(pe, s, section_range(pe, name), 0)
        } else {
            Seq::empty()
        }
    }
}

/// Every trampoline.
pub open spec fn trampolines(pe: Image, name: Seq<char>) -> Seq<VmEntry> {
    trampolines_upto(pe, name, pe.sections@.len() as int)
}

/// One past the last byte of a trampoline and its padding.
pub open spec fn trampoline_end(e: VmEntry) -> u64 {
    sum(sum(e.trampoline_va, 5), e.int3_padding as u64)
}

/// The first trampoline from `k` on whose bytes hold a function.
pub open spec fn holder(found: Seq<VmEntry>, f: (u64, u64), k: int) -> Option<int>
    decreases found.len() - k,
{
    if k < 0 || k >= found.len() {
        None
    } else if found[k].trampoline_va <= f.0 && f.1 <= trampoline_end(found[k]) {
        Some(k)
    } else {
        holder(found, f, k + 1)
    }
}

/// Whether an address is a trampoline's.
pub open spec fn is_found(found: Seq<VmEntry>, va: u64) -> bool {
    exists|i: int| 0 <= i < found.len() && (#[trigger] found[i]).trampoline_va == va
}

/// Whether nothing but padding is left of a function.
pub open spec fn hollow(pe: Image, f: (u64, u64)) -> bool {
    f.0 < f.1 && match pe.code_spec(f.0, f.1 - f.0) {
        Some(body) => body.len() == f.1 - f.0 && forall|i: int|
            0 <= i < body.len() ==> #[trigger] body[i] == BREAK,
        None => false,
    }
}

/// A function that was swallowed: nothing but padding is left of it, in the padding of a
/// trampoline, and it is neither a trampoline itself nor in the VM section.
pub open spec fn swallowed(pe: Image, vm: (u64, u64), found: Seq<VmEntry>, f: (u64, u64)) -> Option<
    VmEntry,
> {
    if is_found(found, f.0) || vm.0 <= f.0 < vm.1 || !hollow(pe, f) {
        None
    } else {
        match holder(found, f, 0) {
            Some(k) => Some(
                VmEntry {
                    trampoline_va: f.0,
                    vm_entry_va: found[k].vm_entry_va,
                    int3_padding: 0,
                },
            ),
            None => None,
        }
    }
}

/// The swallowed among the first `k` functions.
pub open spec fn swallowed_upto(pe: Image, vm: (u64, u64), found: Seq<VmEntry>, k: int) -> Seq<
    VmEntry,
>
    decreases k,
{
    if k <= 0 {
        Seq::empty()
    } else {
        match swallowed(pe, vm, found, pe.functions@[k - 1]) {
            Some(e) => swallowed_upto(pe, vm, found, k - 1).push(e),
            None => swallowed_upto(pe, vm, found, k - 1),
        }
    }
}

/// Everything that is found: trampolines, then swallowed functions.
pub open spec fn all_found(pe: Image, name: Seq<char>) -> Seq<VmEntry> {
    let found = trampolines(pe, name);
    found + swallowed_upto(pe, section_range(pe, name), found, pe.functions@.len() as int)
}

/// Entries in ascending order of their addresses, each address once.
pub open spec fn entries_ascending(v: Seq<VmEntry>) -> bool {
    forall|i: int, j: int|
        0 <= i < j < v.len() ==> (#[trigger] v[i]).trampoline_va < (#[trigger] v[j]).trampoline_va
}

/// Whether an entry is the first of a list at its address.
pub open spec fn first_at(all: Seq<VmEntry>, e: VmEntry, k: int) -> bool {
    &&& 0 <= k < all.len()
    &&& all[k] == e
    &&& forall|j: int| 0 <= j < k ==> (#[trigger] all[j]).trampoline_va != e.trampoline_va
}

/// Whether a list holds the first entry at each address.
pub open spec fn holds_firsts(all: Seq<VmEntry>, v: Seq<VmEntry>) -> bool {
    forall|e: VmEntry| #[trigger] v.contains(e) <==> exists|k: int| #[trigger] first_at(all, e, k)
}

/// The displacement at a place.
fn displacement(data: &Vec<u8>, i: usize) -> (r: u64)
    requires
        i + 4 <= data@.len(),
    ensures
        r == displacement_at(data@, i as int),
{
    let len: usize = data.len();
    assert(i + 4 <= len);
    let v: u64 = data[i] as u64 + 0x100 * (data[i + 1] as u64) + 0x1_0000 * (data[i + 2] as u64)
        + 0x100_0000 * (data[i + 3] as u64);
    sign_extend(v, Width::W32)
}

/// How many padding bytes stand from a place on.
fn padding(data: &Vec<u8>, i: usize) -> (r: usize)
    requires
        i <= data@.len(),
    ensures
        r == padding_from(data@, i as int),
        i + r <= data@.len(),
{
    let len: usize = data.len();
    let mut n: usize = 0;
    while n < len - i && data[i + n] == BREAK
        invariant
            len == data@.len(),
            i + n <= len,
            padding_from(data@, i as int) == n + padding_from(data@, i + n),
        decreases data@.len() - n,
    {
        n = n + 1;
    }
    n
}

/// The trampolines of a section, added to a list.
fn scan_section(pe: &Image, s: &Section, vm: (u64, u64), out: &mut Vec<VmEntry>)
    ensures
        final(out)@ == old(out)@ + trampolines_from(*pe, *s, vm, 0),
{
    let ghost out0 = out@;
    let mut i: usize = 0;
    proof {
        assert(out0 + trampolines_from(*pe, *s, vm, 0) =~= out@ + trampolines_from(*pe, *s, vm, 0));
    }
    while i <= s.data.len() && s.data.len() - i >= 5
        invariant
            out0 == old(out)@,
            out0 + trampolines_from(*pe, *s, vm, 0) == out@ + trampolines_from(
                *pe,
                *s,
                vm,
                i as int,
            ),
        decreases s.data@.len() - i,
    {
        let ghost rest = trampolines_from(*pe, *s, vm, i as int);
        if s.data[i] == JUMP {
            let va: u64 = s.start.wrapping_add(i as u64);
            let to: u64 = va.wrapping_add(5).wrapping_add(displacement(&s.data, i + 1));
            if vm.0 <= to && to < vm.1 && !is_mid_instruction(pe, va) {
                let p: usize = padding(&s.data, i + 5);
                let e = VmEntry { trampoline_va: va, vm_entry_va: to, int3_padding: p };
                let ghost before = out@;
                out.push(e);
                let more: usize = if p > 1 {
                    p
                } else {
                    1
                };
                proof {
                    let tail = trampolines_from(*pe, *s, vm, i + 5 + more);
                    assert(rest == seq![e] + tail);
                    assert(before + rest =~= out@ + tail);
                }
                if more > s.data.len() - 5 - i {
                    proof {
                        assert(out@ + trampolines_from(*pe, *s, vm, i + 5 + more) =~= out@);
                        assert(out@ =~= out0 + trampolines_from(*pe, *s, vm, 0));
                    }
                    return;
                }
                i = i + 5 + more;
                continue;
            }
        }
        i = i + 1;
    }
    proof {
        assert(out@ + trampolines_from(*pe, *s, vm, i as int) =~= out@);
    }
}

/// Whether nothing but padding is left of a function.
fn is_hollow(pe: &Image, f: (u64, u64)) -> (r: bool)
    ensures
        r == hollow(*pe, f),
{
    if f.0 >= f.1 {
        return false;
    }
    let len: u64 = f.1 - f.0;
    if len > usize::MAX as u64 {
        proof {
            lemma_code_short(*pe, f.0, len as int);
        }
        return false;
    }
    match pe.code(f.0, len as usize) {
        Some(body) => {
            if body.len() != len as usize {
                return false;
            }
            let mut i: usize = 0;
            while i < body.len()
                invariant
                    i <= body@.len(),
                    f.0 < f.1,
                    len == f.1 - f.0,
                    body@.len() == len,
                    pe.code_spec(f.0, f.1 - f.0) == Some(body@),
                    forall|j: int| 0 <= j < i ==> #[trigger] body@[j] == BREAK,
                decreases body@.len() - i,
            {
                if body[i] != BREAK {
                    return false;
                }
                i = i + 1;
            }
            true
        },
        None => false,
    }
}

/// No more bytes are there than an address space of this machine holds.
proof fn lemma_code_short(pe: Image, va: u64, len: int)
    requires
        len > usize::MAX,
    ensures
        match pe.code_spec(va, len) {
            Some(body) => body.len() < len,
            None => true,
        },
{
    match pe.section_index(va) {
        Some(k) => {
            lemma_covering(pe.sections@, va, 0);
            assert(pe.sections@[k].data@.len() <= usize::MAX) by {
                let d = pe.sections@[k].data;
                assert(d.len() == d@.len());
            }
        },
        None => {},
    }
}

proof fn lemma_covering(sections: Seq<Section>, va: u64, k: int)
    requires
        covering(sections, va, k) is Some,
        0 <= k,
    ensures
        k <= covering(sections, va, k)->0 < sections.len(),
        sections[covering(sections, va, k)->0].covers(va),
    decreases sections.len() - k,
{
    if !sections[k].covers(va) {
        lemma_covering(sections, va, k + 1);
    }
}

/// The entry of a swallowed function.
fn swallowed_entry(pe: &Image, vm: (u64, u64), found: &Vec<VmEntry>, f: (u64, u64)) -> (r: Option<
    VmEntry,
>)
    ensures
        r == swallowed(*pe, vm, found@, f),
{
    let mut k: usize = 0;
    while k < found.len()
        invariant
            k <= found@.len(),
            forall|i: int| 0 <= i < k ==> (#[trigger] found@[i]).trampoline_va != f.0,
        decreases found@.len() - k,
    {
        if found[k].trampoline_va == f.0 {
            return None;
        }
        k = k + 1;
    }
    if (vm.0 <= f.0 && f.0 < vm.1) || !is_hollow(pe, f) {
        return None;
    }
    let mut k: usize = 0;
    while k < found.len()
        invariant
            k <= found@.len(),
            !is_found(found@, f.0),
            !(vm.0 <= f.0 < vm.1),
            hollow(*pe, f),
            holder(found@, f, 0) == holder(found@, f, k as int),
        decreases found@.len() - k,
    {
        let e = found[k];
        let end: u64 = e.trampoline_va.wrapping_add(5).wrapping_add(e.int3_padding as u64);
        if e.trampoline_va <= f.0 && f.1 <= end {
            return Some(
                VmEntry { trampoline_va: f.0, vm_entry_va: e.vm_entry_va, int3_padding: 0 },
            );
        }
        k = k + 1;
    }
    None
}

/// Adds an entry to an ascending list, unless one at its address is there.
fn insert_entry(v: &mut Vec<VmEntry>, e: VmEntry)
    requires
        entries_ascending(old(v)@),
    ensures
        entries_ascending(final(v)@),
        forall|x: VmEntry| #[trigger]
            final(v)@.contains(x) <==> old(v)@.contains(x) || (x == e && !is_found(
                old(v)@,
                e.trampoline_va,
            )),
{
    let ghost v0 = v@;
    let mut k: usize = 0;
    while k < v.len() && v[k].trampoline_va < e.trampoline_va
        invariant
            k <= v@.len(),
            v@ == v0,
            forall|i: int| 0 <= i < k ==> (#[trigger] v@[i]).trampoline_va < e.trampoline_va,
        decreases v@.len() - k,
    {
        k = k + 1;
    }
    if k < v.len() && v[k].trampoline_va == e.trampoline_va {
        assert(v0[k as int].trampoline_va == e.trampoline_va);
        return;
    }
    v.insert(k, e);
    proof {
        assert forall|i: int| 0 <= i < v0.len() implies (#[trigger] v0[i]).trampoline_va
            != e.trampoline_va by {
            if i > k {
                assert(v0[k as int].trampoline_va < v0[i].trampoline_va);
            }
        }
        assert forall|i: int, j: int| 0 <= i < j < v@.len() implies (
        #[trigger] v@[i]).trampoline_va < (#[trigger] v@[j]).trampoline_va by {
            let a = if i < k {
                i
            } else {
                i - 1
            };
            let b = if j < k {
                j
            } else {
                j - 1
            };
            if i == k {
                assert(v@[j] == v0[b]);
                if b > k {
                    assert(v0[k as int].trampoline_va < v0[b].trampoline_va);
                }
            } else if j == k {
                assert(v@[i] == v0[a]);
            } else {
                assert(v@[i] == v0[a] && v@[j] == v0[b]);
            }
        }
        assert forall|x: VmEntry| #[trigger] v@.contains(x) <==> v0.contains(x) || x == e by {
            if v@.contains(x) {
                let i = choose|i: int| 0 <= i < v@.len() && v@[i] == x;
                if i < k {
                    assert(v0[i] == x);
                } else if i > k {
                    assert(v0[i - 1] == x);
                }
            }
            if v0.contains(x) {
                let i = choose|i: int| 0 <= i < v0.len() && v0[i] == x;
                if i < k {
                    assert(v@[i] == x);
                } else {
                    assert(v@[i + 1] == x);
                }
            }
            if x == e {
                assert(v@[k as int] == x);
            }
        }
    }
}

/// One more entry of a list, and the first entry at each address.
proof fn lemma_firsts(all: Seq<VmEntry>, v: Seq<VmEntry>, w: Seq<VmEntry>, n: int)
    requires
        0 <= n < all.len(),
        holds_firsts(all.take(n), v),
        forall|x: VmEntry| #[trigger]
            w.contains(x) <==> v.contains(x) || (x == all[n] && !is_found(v, all[n].trampoline_va)),
    ensures
        holds_firsts(all.take(n + 1), w),
{
    let a = all.take(n);
    let b = all.take(n + 1);
    let e = all[n];
    assert(is_found(v, e.trampoline_va) <==> is_found(a, e.trampoline_va)) by {
        if is_found(v, e.trampoline_va) {
            let i = choose|i: int|
                0 <= i < v.len() && (#[trigger] v[i]).trampoline_va == e.trampoline_va;
            assert(v.contains(v[i]));
            let k = choose|k: int| #[trigger] first_at(a, v[i], k);
            assert(a[k].trampoline_va == e.trampoline_va);
        }
        if is_found(a, e.trampoline_va) {
            let i = choose|i: int|
                0 <= i < a.len() && (#[trigger] a[i]).trampoline_va == e.trampoline_va;
            let k = lemma_first(a, i);
            assert(v.contains(a[k]));
            let j = choose|j: int| 0 <= j < v.len() && v[j] == a[k];
            assert(v[j].trampoline_va == e.trampoline_va);
        }
    }
    assert forall|x: VmEntry| #[trigger] w.contains(x) <==> exists|k: int| #[trigger]
        first_at(b, x, k) by {
        if w.contains(x) {
            if v.contains(x) {
                let k = choose|k: int| #[trigger] first_at(a, x, k);
                assert forall|j: int| 0 <= j < k implies (#[trigger] b[j]).trampoline_va
                    != x.trampoline_va by {
                    assert(a[j] == b[j]);
                }
                assert(first_at(b, x, k));
            } else {
                assert forall|j: int| 0 <= j < n implies (#[trigger] b[j]).trampoline_va
                    != x.trampoline_va by {
                    assert(a[j] == b[j]);
                }
                assert(first_at(b, x, n));
            }
        }
        if exists|k: int| #[trigger] first_at(b, x, k) {
            let k = choose|k: int| #[trigger] first_at(b, x, k);
            if k < n {
                assert forall|j: int| 0 <= j < k implies (#[trigger] a[j]).trampoline_va
                    != x.trampoline_va by {
                    assert(a[j] == b[j]);
                }
                assert(first_at(a, x, k));
                assert(v.contains(x));
            } else {
                assert(x == e);
                assert(!is_found(a, e.trampoline_va)) by {
                    if is_found(a, e.trampoline_va) {
                        let i = choose|i: int|
                            0 <= i < a.len() && (#[trigger] a[i]).trampoline_va == e.trampoline_va;
                        assert(b[i].trampoline_va == e.trampoline_va);
                    }
                }
            }
        }
    }
}

/// Where an address is in a list, it is there for the first time somewhere.
proof fn lemma_first(all: Seq<VmEntry>, i: int) -> (k: int)
    requires
        0 <= i < all.len(),
    ensures
        0 <= k <= i,
        all[k].trampoline_va == all[i].trampoline_va,
        first_at(all, all[k], k),
    decreases i,
{
    if exists|j: int| 0 <= j < i && (#[trigger] all[j]).trampoline_va == all[i].trampoline_va {
        let j = choose|j: int|
            0 <= j < i && (#[trigger] all[j]).trampoline_va == all[i].trampoline_va;
        lemma_first(all, j)
    } else {
        i
    }
}

/// Scans every executable section other than the VM section for entry trampolines that lead
/// into the VM section, and the unwind table for functions that their padding swallowed.
/// Without a VM section there are none.
pub fn find_vm_entries(pe: &Image, vm_section: &str) -> (r: Vec<VmEntry>)
    ensures
        entries_ascending(r@),
        holds_firsts(all_found(*pe, vm_section@), r@),
{
    let vm = range_of(pe, vm_section);
    let mut found: Vec<VmEntry> = Vec::new();
    let mut k: usize = 0;
    while k < pe.sections.len()
        invariant
            k <= pe.sections@.len(),
            vm == section_range(*pe, vm_section@),
            found@ == trampolines_upto(*pe, vm_section@, k as int),
        decreases pe.sections@.len() - k,
    {
        let s = &pe.sections[k];
        let ghost before = found@;
        if s.executable && !same_text(s.name.as_str(), vm_section) {
            scan_section(pe, s, vm, &mut found);
        } else {
            proof {
                assert(before =~= before + Seq::<VmEntry>::empty());
            }
        }
        k = k + 1;
    }
    let mut more: Vec<VmEntry> = Vec::new();
    let mut k: usize = 0;
    while k < pe.functions.len()
        invariant
            k <= pe.functions@.len(),
            vm == section_range(*pe, vm_section@),
            more@ == swallowed_upto(*pe, vm, found@, k as int),
        decreases pe.functions@.len() - k,
    {
        if let Some(e) = swallowed_entry(pe, vm, &found, pe.functions[k]) {
            more.push(e);
        }
        k = k + 1;
    }
    let ghost all = found@ + more@;
    let mut out: Vec<VmEntry> = Vec::new();
    let mut k: usize = 0;
    proof {
        assert forall|e: VmEntry| #[trigger] out@.contains(e) <==> exists|k: int| #[trigger]
            first_at(all.take(0), e, k) by {}
    }
    while k < found.len()
        invariant
            k <= found@.len(),
            all == found@ + more@,
            entries_ascending(out@),
            holds_firsts(all.take(k as int), out@),
        decreases found@.len() - k,
    {
        let ghost before = out@;
        insert_entry(&mut out, found[k]);
        proof {
            assert(all[k as int] == found@[k as int]);
            lemma_firsts(all, before, out@, k as int);
        }
        k = k + 1;
    }
    let mut j: usize = 0;
    while j < more.len()
        invariant
            j <= more@.len(),
            k == found@.len(),
            all == found@ + more@,
            entries_ascending(out@),
            holds_firsts(all.take(k + j), out@),
        decreases more@.len() - j,
    {
        let ghost before = out@;
        insert_entry(&mut out, more[j]);
        proof {
            assert(all[k + j] == more@[j as int]);
            lemma_firsts(all, before, out@, k + j);
        }
        j = j + 1;
    }
    proof {
        assert(all.take(k + j) =~= all);
    }
    out
}

/// Every trampoline is among the entries, and so is one at the start of every function that
/// a trampoline's padding swallowed.
pub proof fn no_trampoline_is_missed(pe: Image, name: Seq<char>, r: Seq<VmEntry>, i: int)
    requires
        holds_firsts(all_found(pe, name), r),
        0 <= i < all_found(pe, name).len(),
    ensures
        is_found(r, all_found(pe, name)[i].trampoline_va),
{
    let all = all_found(pe, name);
    let k = lemma_first(all, i);
    assert(r.contains(all[k]));
    let j = choose|j: int| 0 <= j < r.len() && r[j] == all[k];
    assert(r[j].trampoline_va == all[i].trampoline_va);
}

/// Where there is no VM section, nothing enters it.
pub proof fn nothing_enters_an_absent_section(pe: Image, name: Seq<char>)
    requires
        named_from(pe.sections@, name, 0) is None,
    ensures
        all_found(pe, name).len() == 0,
{
    lemma_none_upto(pe, name, pe.sections@.len() as int);
    lemma_none_swallowed(pe, name, pe.functions@.len() as int);
}

proof fn lemma_none_from(pe: Image, s: Section, i: int)
    ensures
        trampolines_from(pe, s, (0, 0), i).len() == 0,
    decreases
            if i <= s.data@.len() {
                s.data@.len() - i
            } else {
                0
            },
{
    if !(i < 0 || i + 5 > s.data@.len()) {
        lemma_none_from(pe, s, i + 1);
    }
}

proof fn lemma_none_upto(pe: Image, name: Seq<char>, k: int)
    requires
        named_from(pe.sections@, name, 0) is None,
    ensures
        trampolines_upto(pe, name, k).len() == 0,
    decreases k,
{
    if k > 0 {
        lemma_none_upto(pe, name, k - 1);
        lemma_none_from(pe, pe.sections@[k - 1], 0);
    }
}

proof fn lemma_none_swallowed(pe: Image, name: Seq<char>, k: int)
    requires
        trampolines(pe, name).len() == 0,
    ensures
        swallowed_upto(pe, section_range(pe, name), trampolines(pe, name), k).len() == 0,
    decreases k,
{
    if k > 0 {
        lemma_none_swallowed(pe, name, k - 1);
    }
}

} // verus!
