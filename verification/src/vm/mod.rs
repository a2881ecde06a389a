//! The virtual machine being undone: its state, its entries and its control flow.

use vstd::prelude::*;

pub mod branching;
pub mod candidates;
pub mod discover;
pub mod ending;
pub mod explore;
pub mod following;
pub mod fork;
pub mod graft;
pub mod image;
pub mod joining;
pub mod load;
pub mod memory;
pub mod order;
pub mod placing;
pub mod reach;
pub mod split;
pub mod state;
pub mod trampolines;
pub mod validate;
pub mod visit;
pub mod wiring;

verus! {

/// Concrete value the stack pointer is given on entry.
pub const DEFAULT_STACK_BASE: u64 = 0x7fff_fffe_fda0;

/// Name of the section that holds bytecode, unless told otherwise.
pub const DEFAULT_VM_SECTION: &'static str = ".tvm0";

} // verus!
