//! Which part of the machine an address belongs to.

use crate::ir::event::Region;
use crate::ir::expr::{const_of, op_of, Op, Ref};
use crate::ir::lift::{Emulator, Layout, GUEST_IMAGE_ORDER, GUEST_IMAGE_ORDER_ALT};
use crate::ir::subst::pin_of;
use crate::ir::value::{BinOp, Reg};
use crate::vm::state::{byte_addr, Byte};
use vstd::prelude::*;

verus! {

broadcast use vstd::std_specs::hash::group_hash_axioms;

/// Size of the guest register image: a packed-flags word plus 16 registers.
pub const GUEST_IMAGE_BYTES: u64 = 136;

/// Place of a register among those from `k` on.
pub open spec fn place_from(order: Seq<Reg>, reg: Reg, k: int) -> Option<int>
    decreases order.len() - k,
{
    if k < 0 || k >= order.len() {
        None
    } else if order[k] == reg {
        Some(k)
    } else {
        place_from(order, reg, k + 1)
    }
}

impl Layout {
    /// Address of slot `i` in an image based at `base`.
    pub open spec fn slot_addr(self, base: u64, i: int) -> u64 {
        byte_addr(byte_addr(base, self.first_reg as int), 8 * i)
    }

    /// Address of `reg`'s slot in an image based at `base`.
    pub open spec fn slot_spec(&self, base: u64, reg: Reg) -> Option<u64> {
        match place_from(self.order@, reg, 0) {
            Some(i) => Some(self.slot_addr(base, i)),
            None => None,
        }
    }

    /// Address of slot `i`.
    pub fn address(&self, base: u64, i: usize) -> (r: u64)
        requires
            i < 16,
        ensures
            r == self.slot_addr(base, i as int),
    {
        base.wrapping_add(self.first_reg).wrapping_add(8 * (i as u64))
    }

    #[verifier::when_used_as_spec(slot_spec)]
    pub fn slot(&self, base: u64, reg: Reg) -> (r: Option<u64>)
        ensures
            r == self.slot_spec(base, reg),
    {
        match self.place(reg) {
            Some(i) => Some(self.address(base, i)),
            None => None,
        }
    }

    /// Place of a register in the image.
    pub fn place(&self, reg: Reg) -> (r: Option<usize>)
        ensures
            match r {
                Some(i) => place_from(self.order@, reg, 0) == Some(i as int) && i < 16,
                None => place_from(self.order@, reg, 0) is None,
            },
    {
        let mut i: usize = 0;
        while i < 16
            invariant
                i <= 16,
                self.order@.len() == 16,
                place_from(self.order@, reg, 0) == place_from(self.order@, reg, i as int),
            decreases 16 - i,
        {
            if self.order[i] == reg {
                return Some(i);
            }
            i = i + 1;
        }
        None
    }
}

/// The layouts to try, in the order they are preferred when scores tie.
pub open spec fn layouts_spec() -> Seq<Layout> {
    seq![
        Layout { order: GUEST_IMAGE_ORDER, first_reg: 0 },
        Layout { order: GUEST_IMAGE_ORDER_ALT, first_reg: 8 },
    ]
}

/// The layouts to try, in the order they are preferred when scores tie.
pub fn layouts() -> (r: Vec<Layout>)
    ensures
        r@ == layouts_spec(),
{
    let first = Layout { order: GUEST_IMAGE_ORDER, first_reg: 0 };
    let second = Layout { order: GUEST_IMAGE_ORDER_ALT, first_reg: 8 };
    let r: Vec<Layout> = vec![first, second];
    proof {
        assert(r@ =~= layouts_spec());
    }
    r
}

/// The little-endian number made of the `n` bytes at an address, where all are known.
pub open spec fn const_run(mem: Map<u64, Byte>, addr: u64, n: int) -> Option<u64>
    decreases n,
{
    if n <= 0 {
        Some(0u64)
    } else if !mem.dom().contains(byte_addr(addr, n - 1)) {
        None
    } else {
        match (const_run(mem, addr, n - 1), mem[byte_addr(addr, n - 1)]) {
            (Some(v), Byte::Const(c)) => Some(v | ((c as u64) << ((8 * (n - 1)) as u64))),
            _ => None,
        }
    }
}

proof fn lemma_run_short(mem: Map<u64, Byte>, addr: u64, n: int, k: int)
    requires
        n <= k,
        const_run(mem, addr, n) is None,
    ensures
        const_run(mem, addr, k) is None,
    decreases k - n,
{
    if n < k {
        lemma_run_short(mem, addr, n, k - 1);
    }
}

/// The expression a run of bytes is made of, when they are its bytes in order.
pub open spec fn expr_run(mem: Map<u64, Byte>, addr: u64, expr: Ref, n: int) -> bool {
    forall|i: int|
        #![trigger byte_addr(addr, i)]
        0 <= i < n ==> mem.dom().contains(byte_addr(addr, i)) && mem[byte_addr(addr, i)]
            == (Byte::Sym { expr, index: i as u32 })
}

/// The guest register image slot of a register that still holds a pinned parameter.
pub open spec fn pinned_slot(m: Emulator, addr: u64) -> Option<u64> {
    if !m.state.mem@.dom().contains(addr) {
        None
    } else {
        match m.state.mem@[addr] {
            Byte::Sym { expr, index } => if index == 0 && op_of(m.arena.nodes@, expr) is Param {
                pin_of(m.pins@, expr)
            } else {
                None
            },
            Byte::Const(_) => None,
        }
    }
}

/// The guest's stack pointer as its slot has it.
pub open spec fn rsp_slot_value(m: Emulator) -> Option<u64> {
    match m.guest_ctx {
        Some(base) => match layout_of(m).slot(base, Reg::Rsp) {
            Some(slot) => match const_run(m.state.mem@, slot, 8) {
                Some(v) => Some(v),
                None => pinned_slot(m, slot),
            },
            None => None,
        },
        None => None,
    }
}

/// The layout in use, or the preferred one while none is known.
pub open spec fn layout_of(m: Emulator) -> Layout {
    match m.guest_layout {
        Some(l) => l,
        None => layouts_spec()[0],
    }
}

/// The lowest address the guest itself can be using: its stack pointer, where the slot
/// holds something at or below the entry RSP and outside the VM's own context.
pub open spec fn stack_floor(m: Emulator) -> u64 {
    match rsp_slot_value(m) {
        Some(rsp) => if rsp <= m.stack_base && m.guest_ctx is Some && rsp > m.guest_ctx->0
            + GUEST_IMAGE_BYTES {
            rsp
        } else {
            m.stack_base
        },
        None => m.stack_base,
    }
}

/// Whether an address is in the region the VM uses for its own context and spills. With
/// no context observed there is no VM, and an address of a section is never scratch.
pub open spec fn vm_scratch(m: Emulator, addr: u64) -> bool {
    m.guest_ctx is Some && !m.pe.mapped(addr) && addr < stack_floor(m)
}

/// Which region a concrete address belongs to. A guest access to a global lands in the
/// image too, so that is only bookkeeping where it reads the VM's own section.
pub open spec fn region_at(m: Emulator, addr: u64) -> Region {
    if vm_scratch(m, addr) {
        Region::VmScratch
    } else if m.pe.filled(addr) && m.in_vm(addr) {
        Region::VmImage
    } else {
        Region::Guest
    }
}

/// A constant that places an address among the VM's own structures.
pub open spec fn vm_anchor(m: Emulator, r: Ref) -> bool {
    match const_of(m.arena.nodes@, r) {
        Some(c) => vm_scratch(m, c) || m.in_vm(c),
        None => false,
    }
}

/// Which region an address that did not fold belongs to: the guest's where it is computed
/// from guest state, unless it is an offset into the VM's own structures.
pub open spec fn region_of_expr(m: Emulator, addr: Ref) -> Region {
    if (op_of(m.arena.nodes@, addr) matches Op::Bin(BinOp::Add, x, y) && (vm_anchor(m, x)
        || vm_anchor(m, y))) {
        Region::VmInternal
    } else if crate::ir::walk::guest_rooted(m.arena.nodes@, addr) {
        Region::Guest
    } else {
        Region::VmInternal
    }
}

impl<'a> Emulator<'a> {
    /// Read a fully constant qword out of the abstract memory.
    pub(crate) fn read_const_qword(&self, addr: u64) -> (r: Option<u64>)
        ensures
            r == const_run(self.state.mem@, addr, 8),
    {
        let mut v: u64 = 0;
        let mut i: u64 = 0;
        while i < 8
            invariant
                i <= 8,
                const_run(self.state.mem@, addr, i as int) == Some(v),
            decreases 8 - i,
        {
            proof {
                assert(byte_addr(addr, i as int) == vstd::wrapping::u64_specs::wrapping_add(addr, i));
                if const_run(self.state.mem@, addr, i + 1) is None {
                    lemma_run_short(self.state.mem@, addr, i + 1, 8);
                }
            }
            match self.state.mem.get(&addr.wrapping_add(i)) {
                Some(Byte::Const(c)) => {
                    v = v | ((*c as u64) << (8 * i));
                },
                _ => {
                    return None;
                },
            }
            i = i + 1;
        }
        Some(v)
    }

    fn pinned_slot_value(&self, addr: u64) -> (r: Option<u64>)
        requires
            self.wf(),
        ensures
            r == pinned_slot(*self, addr),
    {
        match self.state.mem.get(&addr) {
            Some(Byte::Sym { expr, index }) => {
                if *index != 0 || !matches!(self.arena.op(*expr), Op::Param(_, _)) {
                    return None;
                }
                let r = *expr;
                self.pin(r)
            },
            _ => None,
        }
    }

    /// The layout in use, or the preferred one while none is known.
    pub(crate) fn layout(&self) -> (r: Layout)
        ensures
            r == layout_of(*self),
    {
        match self.guest_layout {
            Some(l) => l,
            None => layouts()[0],
        }
    }

    fn guest_stack_floor(&self) -> (r: u64)
        requires
            self.wf(),
        ensures
            r == stack_floor(*self),
    {
        let base: u64 = match self.guest_ctx {
            Some(b) => b,
            None => {
                return self.stack_base;
            },
        };
        let slot: u64 = match self.layout().slot(base, Reg::Rsp) {
            Some(s) => s,
            None => {
                return self.stack_base;
            },
        };
        let found = match self.read_const_qword(slot) {
            Some(v) => Some(v),
            None => self.pinned_slot_value(slot),
        };
        match found {
            Some(rsp) => {
                if rsp <= self.stack_base && rsp >= GUEST_IMAGE_BYTES && rsp - GUEST_IMAGE_BYTES > base {
                    rsp
                } else {
                    self.stack_base
                }
            },
            None => self.stack_base,
        }
    }

    fn is_vm_scratch(&self, addr: u64) -> (r: bool)
        requires
            self.wf(),
        ensures
            r == vm_scratch(*self, addr),
    {
        if self.guest_ctx.is_none() {
            return false;
        }
        if self.pe.section_for_va(addr).is_some() {
            return false;
        }
        addr < self.guest_stack_floor()
    }

    /// Which region a concrete address belongs to.
    pub(crate) fn region_of_addr(&self, addr: u64) -> (r: Region)
        requires
            self.wf(),
        ensures
            r == region_at(*self, addr),
    {
        if self.is_vm_scratch(addr) {
            return Region::VmScratch;
        }
        if self.pe.has_data(addr) && self.in_vm(addr) {
            return Region::VmImage;
        }
        Region::Guest
    }

    fn is_vm_anchor(&self, r: Ref) -> (b: bool)
        requires
            self.wf(),
            self.arena.holds(r),
        ensures
            b == vm_anchor(*self, r),
    {
        match self.arena.as_const(r) {
            Some(c) => self.is_vm_scratch(c) || self.in_vm(c),
            None => false,
        }
    }

    /// Classify an address that did not fold to a constant.
    pub(crate) fn region_of_symbolic(&self, addr: Ref) -> (r: Region)
        requires
            self.wf(),
            self.arena.holds(addr),
        ensures
            r == region_of_expr(*self, addr),
    {
        proof {
            assert(crate::ir::expr::ok_at(self.arena.nodes@, addr.idx as int));
        }
        if let Some((BinOp::Add, x, y)) = self.arena.as_bin(addr) {
            if self.is_vm_anchor(x) || self.is_vm_anchor(y) {
                return Region::VmInternal;
            }
        }
        if crate::ir::walk::is_guest_rooted(&self.arena, addr) {
            Region::Guest
        } else {
            Region::VmInternal
        }
    }
}

} // verus!
