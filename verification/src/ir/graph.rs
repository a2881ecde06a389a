//! The recovered control-flow graph: the form every later stage consumes.

use crate::ir::event::{copy_list, Event};
use crate::ir::expr::{Arena, BlockRef, Ref};
use crate::ir::text::{hex_text, push_hex};
use crate::ir::value::Reg;
use vstd::prelude::*;
use vstd::string::StringExecFns;

verus! {

/// A block of the recovered function: the handler that interprets it and, inside the
/// virtual machine, its position in the bytecode.
#[derive(Debug, Clone, Copy, Eq, Hash, PartialOrd, Ord)]
pub struct BlockId {
    pub handler: u64,
    pub vip: Option<u64>,
}

impl PartialEq for BlockId {
    fn eq(&self, other: &Self) -> (r: bool) {
        self.handler == other.handler && match (self.vip, other.vip) {
            (Some(a), Some(b)) => a == b,
            (None, None) => true,
            _ => false,
        }
    }
}

impl vstd::std_specs::cmp::PartialEqSpecImpl for BlockId {
    open spec fn obeys_eq_spec() -> bool {
        true
    }

    open spec fn eq_spec(&self, other: &Self) -> bool {
        *self == *other
    }
}

impl BlockId {
    pub open spec fn text_spec(self) -> Seq<char> {
        match self.vip {
            Some(v) => hex_text(self.handler) + "@vip"@ + hex_text(v),
            None => hex_text(self.handler),
        }
    }

    /// The block's name, e.g. `0x1400@vip0x20`.
    pub fn text(&self) -> (r: String)
        ensures
            r@ == self.text_spec(),
    {
        let mut out = String::new();
        push_hex(&mut out, self.handler);
        if let Some(v) = self.vip {
            out.append("@vip");
            push_hex(&mut out, v);
        }
        proof {
            assert(out@ =~= self.text_spec());
        }
        out
    }
}

/// How a recovered block ends.
#[derive(Debug)]
pub enum Terminator {
    /// Unconditional continuation to another virtual block.
    Jump(BlockId),
    /// Two-way branch recovered by pinning a flag bit.
    Branch {
        /// The guest predicate, in the owning [`Cfg`]'s arena.
        predicate: Ref,
        taken: BlockId,
        not_taken: BlockId,
    },
    /// Multi-way branch recovered by enumerating a narrow index.
    Switch { selector: Ref, targets: Vec<BlockId> },
    /// The virtualized function returned to a symbolic address.
    Return { dest: Ref },
    /// Control left the function to a concrete address.
    TailCall { target: u64 },
    /// Recovery failed here.
    Unresolved { reason: String },
    /// Loop back edge to an already-recovered block.
    Backedge { target: BlockId },
    /// A two-way branch whose edges were established by the concrete pass but
    /// whose predicate could not be re-derived once guest state was symbolized.
    Adopted { taken: BlockId, not_taken: BlockId },
    /// As [`Terminator::Adopted`], for a multi-way branch.
    AdoptedSwitch { targets: Vec<BlockId> },
    /// The concrete pass proved this block returns, but its destination expression
    /// could not be carried across.
    AdoptedReturn,
}

/// Two terminators with the same contents.
pub open spec fn same_terminator(a: Terminator, b: Terminator) -> bool {
    match (a, b) {
        (Terminator::Switch { selector, targets }, Terminator::Switch { selector: s1, targets: t1 }) =>
            selector == s1 && targets@ == t1@,
        (Terminator::AdoptedSwitch { targets }, Terminator::AdoptedSwitch { targets: t1 }) => targets@
            == t1@,
        (Terminator::Unresolved { reason }, Terminator::Unresolved { reason: r1 }) => reason@ == r1@,
        _ => a == b,
    }
}

impl Clone for Terminator {
    fn clone(&self) -> (r: Self)
        ensures
            same_terminator(r, *self),
    {
        match self {
            Terminator::Jump(t) => Terminator::Jump(*t),
            Terminator::Branch { predicate, taken, not_taken } => Terminator::Branch {
                predicate: *predicate,
                taken: *taken,
                not_taken: *not_taken,
            },
            Terminator::Switch { selector, targets } => Terminator::Switch {
                selector: *selector,
                targets: copy_list(targets),
            },
            Terminator::Return { dest } => Terminator::Return { dest: *dest },
            Terminator::TailCall { target } => Terminator::TailCall { target: *target },
            Terminator::Unresolved { reason } => Terminator::Unresolved { reason: reason.clone() },
            Terminator::Backedge { target } => Terminator::Backedge { target: *target },
            Terminator::Adopted { taken, not_taken } => Terminator::Adopted {
                taken: *taken,
                not_taken: *not_taken,
            },
            Terminator::AdoptedSwitch { targets } => Terminator::AdoptedSwitch {
                targets: copy_list(targets),
            },
            Terminator::AdoptedReturn => Terminator::AdoptedReturn,
        }
    }
}

/// An SSA phi: which value a block parameter takes along each incoming edge.
#[derive(Debug)]
pub struct Phi {
    pub block: BlockId,
    pub reg: Reg,
    /// The parameter node itself, as referenced by the block's expressions.
    pub param: Ref,
    /// One entry per predecessor. `None` means that predecessor was never
    /// recovered, so it supplied no value.
    pub incoming: Vec<(BlockId, Option<Ref>)>,
}

#[derive(Debug)]
pub struct Block {
    pub id: BlockId,
    /// This block's index, as its parameters refer to it.
    pub block_ref: BlockRef,
    /// SSA parameters: the value each guest register held on entry.
    pub params: Vec<(Reg, Ref)>,
    /// Guest effects observed while evaluating this block, in program order.
    pub events: Vec<Event>,
    /// Whether `exit_regs` came from a VM context (virtualized) rather than from
    /// the machine registers directly (mutation-only).
    pub from_vm_context: bool,
    /// Guest register values on exit from this block.
    pub exit_regs: Vec<(Reg, Ref)>,
    pub terminator: Terminator,
    /// VM instructions interpreted to recover this block.
    pub cost: usize,
    /// Predecessors, filled in after recovery.
    pub preds: Vec<BlockId>,
}

pub struct Cfg {
    pub entry: BlockId,
    /// Owns every expression referenced by the blocks.
    pub arena: Arena,
    pub blocks: Vec<Block>,
    pub total_steps: usize,
    pub unresolved: usize,
    /// Edges that close a loop.
    pub back_edges: Vec<(BlockId, BlockId)>,
    /// Block parameters removed because their phi was trivial.
    pub trivial_phis_removed: usize,
    /// Set when the wall-clock timer rather than the work budget ended exploration.
    pub timed_out: bool,
    /// The concrete value RSP was pinned to during recovery.
    pub stack_base: u64,
    /// Half-open address range of the section holding VM bytecode.
    pub vm_range: (u64, u64),
}

} // verus!
