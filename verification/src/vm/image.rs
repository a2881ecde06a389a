//! The loaded image: sections with their contents, and the import table.

use vstd::prelude::*;

verus! {

/// One section of the image.
#[derive(Debug)]
pub struct Section {
    pub name: String,
    /// Address of the first byte.
    pub start: u64,
    /// Size in memory.
    pub virtual_size: u32,
    /// Size in the file.
    pub raw_size: u32,
    /// The contents the file has for it.
    pub data: Vec<u8>,
    pub writable: bool,
    pub executable: bool,
}

impl Section {
    /// Bytes of address space the section covers.
    pub open spec fn extent(self) -> int {
        if self.virtual_size >= self.raw_size {
            self.virtual_size as int
        } else {
            self.raw_size as int
        }
    }

    pub open spec fn covers(self, va: u64) -> bool {
        self.start <= va < self.start + self.extent()
    }

    fn holds(&self, va: u64) -> (r: bool)
        ensures
            r == self.covers(va),
    {
        let size: u32 = if self.virtual_size >= self.raw_size {
            self.virtual_size
        } else {
            self.raw_size
        };
        self.start <= va && va - self.start < size as u64
    }
}

/// One import: where its address is stored, the module and the name.
#[derive(Debug)]
pub struct Import {
    pub slot: u64,
    pub module: String,
    pub name: String,
}

#[derive(Debug)]
pub struct Image {
    pub sections: Vec<Section>,
    pub imports: Vec<Import>,
    /// The unwind table's functions, as half-open address ranges in ascending order.
    pub functions: Vec<(u64, u64)>,
}

/// The first of the sections from `k` on that covers an address.
pub open spec fn covering(sections: Seq<Section>, va: u64, k: int) -> Option<int>
    decreases sections.len() - k,
{
    if k < 0 || k >= sections.len() {
        None
    } else if sections[k].covers(va) {
        Some(k)
    } else {
        covering(sections, va, k + 1)
    }
}

/// Whether some of the first `k` imports is stored among the bytes.
pub open spec fn bound_upto(imports: Seq<Import>, va: u64, len: int, k: int) -> bool {
    exists|i: int|
        0 <= i < k && (#[trigger] imports[i]).slot < va + len && va < imports[i].slot + 8
}

impl Image {
    /// The section of an address.
    pub open spec fn section_index(self, va: u64) -> Option<int> {
        covering(self.sections@, va, 0)
    }

    pub open spec fn mapped(self, va: u64) -> bool {
        self.section_index(va) is Some
    }

    /// The byte the file or the loader puts at an address: what the file has, and zero in
    /// the rest of a section.
    pub open spec fn byte_at(self, va: u64) -> Option<u8> {
        match self.section_index(va) {
            Some(k) => {
                let s = self.sections@[k];
                if va - s.start < s.data@.len() {
                    Some(s.data@[va - s.start])
                } else {
                    Some(0u8)
                }
            },
            None => None,
        }
    }

    /// Whether the file has contents for an address.
    pub open spec fn filled(self, va: u64) -> bool {
        match self.section_index(va) {
            Some(k) => va - self.sections@[k].start < self.sections@[k].data@.len(),
            None => false,
        }
    }

    pub open spec fn writable_spec(&self, va: u64) -> bool {
        match self.section_index(va) {
            Some(k) => self.sections@[k].writable,
            None => false,
        }
    }

    pub open spec fn executable_spec(&self, va: u64) -> bool {
        match self.section_index(va) {
            Some(k) => self.sections@[k].executable,
            None => false,
        }
    }

    /// An address of a section past what the file has for it, which the loader clears.
    pub open spec fn bss_spec(&self, va: u64) -> bool {
        self.mapped(va) && !self.filled(va)
    }

    /// Whether the loader stores an import's address among the bytes.
    pub open spec fn bound_spec(&self, va: u64, len: u64) -> bool {
        bound_upto(self.imports@, va, len as int, self.imports@.len() as int)
    }

    /// Up to `max` bytes of the file from an address on, at least one.
    pub open spec fn code_spec(self, va: u64, max: int) -> Option<Seq<u8>> {
        match self.section_index(va) {
            Some(k) => {
                let s = self.sections@[k];
                let at = va - s.start;
                if at < s.data@.len() && max > 0 {
                    Some(
                        s.data@.subrange(
                            at,
                            if at + max <= s.data@.len() {
                                at + max
                            } else {
                                s.data@.len() as int
                            },
                        ),
                    )
                } else {
                    None
                }
            },
            None => None,
        }
    }

    /// The section an address belongs to.
    pub fn section_for_va(&self, va: u64) -> (r: Option<usize>)
        ensures
            match r {
                Some(k) => self.section_index(va) == Some(k as int) && k < self.sections@.len()
                    && self.sections@[k as int].covers(va),
                None => self.section_index(va) is None,
            },
    {
        let mut k: usize = 0;
        while k < self.sections.len()
            invariant
                k <= self.sections@.len(),
                covering(self.sections@, va, 0) == covering(self.sections@, va, k as int),
            decreases self.sections@.len() - k,
        {
            if self.sections[k].holds(va) {
                return Some(k);
            }
            k = k + 1;
        }
        None
    }

    #[verifier::when_used_as_spec(byte_at_spec)]
    pub fn image_u8(&self, va: u64) -> (r: Option<u8>)
        ensures
            r == self.byte_at(va),
    {
        match self.section_for_va(va) {
            Some(k) => {
                let s = &self.sections[k];
                let at: u64 = va - s.start;
                if at < s.data.len() as u64 {
                    Some(s.data[at as usize])
                } else {
                    Some(0)
                }
            },
            None => None,
        }
    }

    pub open spec fn byte_at_spec(&self, va: u64) -> Option<u8> {
        self.byte_at(va)
    }

    #[verifier::when_used_as_spec(writable_spec)]
    pub fn is_writable(&self, va: u64) -> (r: bool)
        ensures
            r == self.writable_spec(va),
    {
        match self.section_for_va(va) {
            Some(k) => self.sections[k].writable,
            None => false,
        }
    }

    #[verifier::when_used_as_spec(executable_spec)]
    pub fn is_executable(&self, va: u64) -> (r: bool)
        ensures
            r == self.executable_spec(va),
    {
        match self.section_for_va(va) {
            Some(k) => self.sections[k].executable,
            None => false,
        }
    }

    #[verifier::when_used_as_spec(bss_spec)]
    pub fn is_bss(&self, va: u64) -> (r: bool)
        ensures
            r == self.bss_spec(va),
    {
        match self.section_for_va(va) {
            Some(k) => va - self.sections[k].start >= self.sections[k].data.len() as u64,
            None => false,
        }
    }

    /// Whether the file has contents for an address.
    pub fn has_data(&self, va: u64) -> (r: bool)
        ensures
            r == self.filled(va),
    {
        match self.section_for_va(va) {
            Some(k) => va - self.sections[k].start < self.sections[k].data.len() as u64,
            None => false,
        }
    }

    #[verifier::when_used_as_spec(bound_spec)]
    pub fn is_loader_bound(&self, va: u64, len: u64) -> (r: bool)
        ensures
            r == self.bound_spec(va, len),
    {
        let mut k: usize = 0;
        while k < self.imports.len()
            invariant
                k <= self.imports@.len(),
                !bound_upto(self.imports@, va, len as int, k as int),
            decreases self.imports@.len() - k,
        {
            let slot: u64 = self.imports[k].slot;
            if (slot < va || slot - va < len) && (va < slot || va - slot < 8) {
                return true;
            }
            k = k + 1;
        }
        false
    }

    /// Up to `max` bytes of code from an address on.
    pub fn code(&self, va: u64, max: usize) -> (r: Option<Vec<u8>>)
        ensures
            match r {
                Some(v) => self.code_spec(va, max as int) == Some(v@),
                None => self.code_spec(va, max as int) is None,
            },
    {
        let k = match self.section_for_va(va) {
            Some(k) => k,
            None => {
                return None;
            },
        };
        let s = &self.sections[k];
        let off: u64 = va - s.start;
        if off >= s.data.len() as u64 || max == 0 {
            return None;
        }
        let at: usize = off as usize;
        let mut out: Vec<u8> = Vec::new();
        let mut i: usize = 0;
        while i < max && i < s.data.len() - at
            invariant
                at < s.data@.len(),
                i <= max,
                i <= s.data@.len() - at,
                out@ == s.data@.subrange(at as int, at + i),
            decreases s.data@.len() - at - i,
        {
            out.push(s.data[at + i]);
            i = i + 1;
            proof {
                assert(out@ =~= s.data@.subrange(at as int, at + i));
            }
        }
        Some(out)
    }
}

} // verus!
