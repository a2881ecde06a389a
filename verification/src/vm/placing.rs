//! What an image has at an address, and whom an address belongs to.

use crate::ir::event::Region;
use crate::ir::lift::Emulator;
use crate::ir::region::region_at;
use crate::vm::image::{covering, Image};
use vstd::prelude::*;

verus! {

/// Whether a section takes an address in: it starts at or before it, and reaches past it in
/// memory or in the file.
pub open spec fn takes_in(pe: Image, k: int, va: u64) -> bool {
    let s = pe.sections@[k];
    s.start <= va && (va < s.start + s.virtual_size || va < s.start + s.raw_size)
}

/// Whether an address is one section's alone.
pub open spec fn is_only_in(pe: Image, k: int, va: u64) -> bool {
    &&& 0 <= k < pe.sections@.len()
    &&& takes_in(pe, k, va)
    &&& forall|j: int| 0 <= j < pe.sections@.len() && #[trigger] takes_in(pe, j, va) ==> j == k
}

proof fn lemma_covering(pe: Image, va: u64, i: int, k: int)
    requires
        0 <= i <= k,
        is_only_in(pe, k, va),
    ensures
        covering(pe.sections@, va, i) == Some(k),
    decreases k - i,
{
    if i < k {
        assert(!takes_in(pe, i, va));
        lemma_covering(pe, va, i + 1, k);
    } else {
        assert(takes_in(pe, k, va));
    }
}

proof fn lemma_uncovered(pe: Image, va: u64, i: int)
    requires
        0 <= i,
        forall|j: int| 0 <= j < pe.sections@.len() ==> !#[trigger] takes_in(pe, j, va),
    ensures
        covering(pe.sections@, va, i) is None,
    decreases pe.sections@.len() - i,
{
    if i < pe.sections@.len() {
        assert(!takes_in(pe, i, va));
        lemma_uncovered(pe, va, i + 1);
    }
}

/// At an address that is one section's, the image has what the section's data has there, and
/// zero behind it. Its rights are the section's. Where no section is, the image has nothing.
pub proof fn an_address_is_its_sections(pe: Image, k: int, va: u64)
    ensures
        is_only_in(pe, k, va) ==> {
            let s = pe.sections@[k];
            &&& va - s.start < s.data@.len() ==> pe.byte_at(va) == Some(s.data@[va - s.start])
            &&& va - s.start >= s.data@.len() ==> pe.byte_at(va) == Some(0u8)
            &&& pe.is_executable(va) == s.executable
            &&& pe.is_writable(va) == s.writable
        },
        (forall|j: int| 0 <= j < pe.sections@.len() ==> !#[trigger] takes_in(pe, j, va))
            ==> pe.byte_at(va) is None && !pe.is_executable(va) && !pe.is_writable(va),
{
    if is_only_in(pe, k, va) {
        lemma_covering(pe, va, 0, k);
    }
    if forall|j: int| 0 <= j < pe.sections@.len() ==> !#[trigger] takes_in(pe, j, va) {
        lemma_uncovered(pe, va, 0);
    }
}

/// Code is what the image has from an address on, byte by byte: as many bytes as were asked
/// for, or up to the end of the section's data.
pub proof fn code_is_the_bytes_of_the_image(pe: Image, k: int, va: u64, max: int, i: int)
    requires
        is_only_in(pe, k, va),
        0 <= i < max,
        va + i <= u64::MAX,
        is_only_in(pe, k, (va + i) as u64),
        va - pe.sections@[k].start + i < pe.sections@[k].data@.len(),
    ensures
        pe.code_spec(va, max) matches Some(code) && i < code.len() <= max && Some(code[i])
            == pe.byte_at((va + i) as u64),
        pe.code_spec(va, max) matches Some(code) && (code.len() == max || va - pe.sections@[k].start
            + code.len() == pe.sections@[k].data@.len()),
{
    lemma_covering(pe, va, 0, k);
    lemma_covering(pe, (va + i) as u64, 0, k);
}

/// Whom an address belongs to. What a section holds outside the VM section is the guest's, and
/// so is the stack from the base on. What the file has in the VM section is not, nor is what
/// lies below the stack once the VM keeps a context.
pub proof fn an_address_belongs_to_the_guest_or_the_vm(m: Emulator, addr: u64)
    ensures
        m.pe.mapped(addr) && !(m.vm_range.0 <= addr < m.vm_range.1) ==> region_at(m, addr)
            == Region::Guest,
        m.guest_ctx is None && !(m.vm_range.0 <= addr < m.vm_range.1) ==> region_at(m, addr)
            == Region::Guest,
        !m.pe.mapped(addr) && addr >= m.stack_base ==> region_at(m, addr) == Region::Guest,
        m.pe.filled(addr) && m.vm_range.0 <= addr < m.vm_range.1 ==> region_at(m, addr)
            != Region::Guest,
        m.guest_ctx matches Some(c) && !m.pe.mapped(addr) && addr <= c && c < m.stack_base
            ==> region_at(m, addr) != Region::Guest,
{
}

} // verus!
