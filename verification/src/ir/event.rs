//! What evaluating guest code was seen to do, in program order.

use crate::ir::expr::Ref;
use crate::ir::value::{Reg, Width};
use vstd::prelude::*;

verus! {

/// Which part of the machine a memory access touches.
#[derive(Debug, Clone, Copy, PartialEq, Eq, Structural)]
pub enum Region {
    /// Guest-visible memory: the guest's own stack frame, globals, heap.
    Guest,
    /// The VM's private area below the guest stack: register file, spills.
    VmScratch,
    /// Bytecode stream, dispatch tables, and other image reads.
    VmImage,
    /// A symbolic address not rooted in guest state: the VM indexing its own
    /// structures.
    VmInternal,
}

impl Region {
    /// Whether an access here carries guest program semantics.
    pub fn is_guest(self) -> (r: bool)
        ensures
            r == (self == Region::Guest),
    {
        matches!(self, Region::Guest)
    }
}

/// The memory operand of a boxed instruction.
#[derive(Debug, Clone, Copy)]
pub struct BoxedMem {
    /// Symbolic address of the operand.
    pub addr: Ref,
    /// Size of the access in bytes. SSE operands are 16, which no `Width` covers.
    pub bytes: u32,
    /// Whether the instruction writes the operand (operand 0 is memory).
    pub writes: bool,
}

/// Guest-visible effect observed during evaluation.
#[derive(Debug)]
pub enum Event {
    /// A store whose address is not inside the VM's own scratch area.
    Store { addr: Ref, value: Ref, width: Width, site: u64, region: Region },
    /// A load from an address the evaluator could not resolve statically.
    Load { addr: Ref, value: Ref, width: Width, site: u64, region: Region },
    /// An instruction executed natively by the VM. `bytes` is the original encoding.
    Boxed {
        site: u64,
        text: String,
        bytes: Vec<u8>,
        mem: Option<BoxedMem>,
        /// The architectural registers this instruction leaves a value in, by the
        /// decoder's register number, paired with the opaque naming that value.
        defs: Vec<(u32, Ref)>,
        /// The architectural registers this instruction reads, paired with the guest
        /// value each held.
        uses: Vec<(u32, Ref)>,
    },
    /// A call out of the virtualized function.
    Call {
        target: Option<Ref>,
        site: u64,
        rsp: Option<u64>,
        /// Address of the import table slot, when the call goes through one.
        import_slot: Option<u64>,
        /// What the Win64 argument registers held before the call clobbered them.
        args: Vec<(Reg, Ref)>,
        ret: Option<Ref>,
    },
}

/// Two events with the same contents.
pub open spec fn same_event(a: Event, b: Event) -> bool {
    match (a, b) {
        (Event::Store { .. }, Event::Store { .. }) => a == b,
        (Event::Load { .. }, Event::Load { .. }) => a == b,
        (
            Event::Boxed { site, text, bytes, mem, defs, uses },
            Event::Boxed { site: site1, text: text1, bytes: bytes1, mem: mem1, defs: defs1, uses: uses1 },
        ) => site == site1 && text@ == text1@ && bytes@ == bytes1@ && mem == mem1 && defs@ == defs1@
            && uses@ == uses1@,
        (
            Event::Call { target, site, rsp, import_slot, args, ret },
            Event::Call {
                target: target1,
                site: site1,
                rsp: rsp1,
                import_slot: import_slot1,
                args: args1,
                ret: ret1,
            },
        ) => target == target1 && site == site1 && rsp == rsp1 && import_slot == import_slot1
            && args@ == args1@ && ret == ret1,
        _ => false,
    }
}

/// A copy of a list of plain values.
pub fn copy_list<T: Copy>(v: &Vec<T>) -> (r: Vec<T>)
    ensures
        r@ == v@,
{
    let mut r: Vec<T> = Vec::new();
    let mut i: usize = 0;
    while i < v.len()
        invariant
            i <= v@.len(),
            r@ == v@.take(i as int),
        decreases v@.len() - i,
    {
        r.push(v[i]);
        i = i + 1;
        proof {
            assert(r@ =~= v@.take(i as int));
        }
    }
    proof {
        assert(r@ =~= v@);
    }
    r
}

impl Clone for Event {
    fn clone(&self) -> (r: Self)
        ensures
            same_event(r, *self),
    {
        match self {
            Event::Store { addr, value, width, site, region } => Event::Store {
                addr: *addr,
                value: *value,
                width: *width,
                site: *site,
                region: *region,
            },
            Event::Load { addr, value, width, site, region } => Event::Load {
                addr: *addr,
                value: *value,
                width: *width,
                site: *site,
                region: *region,
            },
            Event::Boxed { site, text, bytes, mem, defs, uses } => Event::Boxed {
                site: *site,
                text: text.clone(),
                bytes: copy_list(bytes),
                mem: *mem,
                defs: copy_list(defs),
                uses: copy_list(uses),
            },
            Event::Call { target, site, rsp, import_slot, args, ret } => Event::Call {
                target: *target,
                site: *site,
                rsp: *rsp,
                import_slot: *import_slot,
                args: copy_list(args),
                ret: *ret,
            },
        }
    }
}

/// Why evaluation stopped.
#[derive(Debug)]
pub enum Stop {
    /// Indirect branch whose destination stayed symbolic. Either a virtualized
    /// JCC or incomplete folding.
    SymbolicBranch { site: u64, dest: Ref },
    /// A native `JCC` on a guest predicate. Both targets are statically known;
    /// only the predicate is symbolic.
    NativeBranch { site: u64, predicate: Ref, taken: u64, not_taken: u64 },
    /// `ret` with a concrete or symbolic destination: the function returned.
    Return { site: u64, dest: Ref },
    /// Instruction the lifter does not model.
    Unsupported { site: u64, text: String },
    /// Could not read code at the given address.
    Unreadable { site: u64 },
    /// A dispatch destination that repeats closes a loop.
    Backedge { site: u64, target: u64, vip: Option<u64> },
    /// Step budget exhausted.
    Budget { site: u64 },
    /// The expression DAG grew past its limit, which means folding has broken
    /// down and further evaluation would only produce garbage.
    Diverged { site: u64, nodes: usize },
    /// Reached an address outside the image.
    OutOfImage { site: u64 },
    /// A call to a routine that never returns. The block ends at the call.
    NoReturn { site: u64 },
}

/// Result of a single step.
#[derive(Debug)]
pub enum Step {
    Next(u64),
    /// Evaluation cannot go on from here.
    Stopped(Stop),
}

} // verus!
