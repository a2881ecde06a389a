//! Single steps and runs.

use crate::ir::arith::{
    combines, counts, divides, fills_sign, multiplies_signed, multiplies_wide, negates, shifts,
    tests_bit,
};
use crate::ir::boxed::{boxes, moves_vector, vector_move_spec, unknown_made};
use crate::ir::branch::{branches, calls, jumps, returns_from};
use crate::ir::decode::{decode_at, decodes_to, text_of, Inst};
use crate::ir::event::{Step, Stop};
use crate::ir::expr::Ref;
use crate::ir::lift::{lemma_wf_grows, Emulator, TRACE_TAIL_CAP};
use crate::ir::machine::{goes_on, lemma_quiet, op_written};
use crate::ir::mnemonic::{is_boxable, kind, Kind};
use crate::ir::subst::lemma_continues_twice;
use crate::ir::transfer::{
    exchanges, lemma_goes_on, moves, moves_if, pops, pops_flags, pushes, pushes_flags, sets_if,
    swaps, takes_address,
};
use crate::ir::value::{BinOp, Width};
use vstd::prelude::*;

verus! {

broadcast use vstd::std_specs::hash::group_hash_axioms;

/// The addresses remembered after one more.
pub open spec fn traced(trace: Seq<u64>, ip: u64) -> Seq<u64> {
    if trace.len() == TRACE_TAIL_CAP {
        trace.skip(1).push(ip)
    } else {
        trace.push(ip)
    }
}

/// One more instruction is interpreted.
pub open spec fn counted(m0: Emulator, ip: u64, m1: Emulator) -> bool {
    &&& m1.steps == m0.steps + 1
    &&& m1.trace@ == traced(m0.trace@, ip)
    &&& m1 == (Emulator { steps: m1.steps, trace: m1.trace, ..m0 })
}

/// Reading the shadow stack pointer: nothing where shadow stacks are taken to be off, and
/// an unknown value otherwise.
pub open spec fn reads_shadow_stack(m0: Emulator, inst: Inst, m1: Emulator) -> bool {
    if m0.assume_cet_disabled {
        m1 == m0
    } else {
        exists|mid: Emulator, v: Ref| #[trigger]
            unknown_made(m0, mid, v, "rdssp"@) && op_written(mid, inst, 0, v, m1)
    }
}

/// Evaluation stops at an instruction that is not modelled.
pub open spec fn unsupported(out: Step, ip: u64, shown: Seq<char>) -> bool {
    match out {
        Step::Stopped(Stop::Unsupported { site, text }) => site == ip && text@ == shown,
        _ => false,
    }
}

/// An instruction outside the modelled subset: a vector move, an instruction kept as its
/// bytes, or a stop.
pub open spec fn evaluates_other(m0: Emulator, inst: Inst, m1: Emulator, out: Step) -> bool {
    match vector_move_spec(inst) {
        Some(v) => moves_vector(m0, inst, v, m1) && out == Step::Next(inst.head.next_ip),
        None => if m0.box_unmodelled && is_boxable(inst.head.mnemonic) {
            boxes(m0, inst, m1) && out == Step::Next(inst.head.next_ip)
        } else {
            m1 == m0 && unsupported(out, inst.ip, text_of(inst.code@, inst.ip))
        },
    }
}

/// What one instruction does to the machine, and where evaluation goes on.
pub open spec fn evaluates(m0: Emulator, inst: Inst, m1: Emulator, out: Step) -> bool {
    let next = out == Step::Next(inst.head.next_ip);
    if m0.box_unmodelled && inst.seg_relative() && is_boxable(inst.head.mnemonic) {
        boxes(m0, inst, m1) && next
    } else {
        match kind(inst.head.mnemonic) {
            Kind::Nothing => m1 == m0 && next,
            Kind::Mov | Kind::Movzx | Kind::Movsx | Kind::Bswap | Kind::Not => moves(
                m0,
                inst,
                kind(inst.head.mnemonic),
                m1,
            ) && next,
            Kind::Lea => takes_address(m0, inst, m1) && next,
            Kind::Xchg => swaps(m0, inst, m1) && next,
            Kind::Exchange => exchanges(m0, inst, m1) && next,
            Kind::Push => pushes(m0, inst, m1) && next,
            Kind::Pop => pops(m0, inst, m1) && next,
            Kind::Pushfq => pushes_flags(m0, inst, m1) && next,
            Kind::Popfq => pops_flags(m0, inst, m1) && next,
            Kind::Sum { .. } | Kind::Difference { .. } | Kind::Compare | Kind::Test
            | Kind::Logic { .. } => combines(m0, inst, kind(inst.head.mnemonic), m1) && next,
            Kind::Neg => negates(m0, inst, m1) && next,
            Kind::Inc => counts(m0, inst, true, m1) && next,
            Kind::Dec => counts(m0, inst, false, m1) && next,
            Kind::Shift { op } => shifts(m0, inst, op, m1) && next,
            Kind::Bt => tests_bit(m0, inst, m1) && next,
            Kind::SignFill { width } => fills_sign(m0, width, m1) && next,
            Kind::Imul => multiplies_signed(m0, inst, m1) && next,
            Kind::Mul => multiplies_wide(m0, inst, BinOp::MulHiU, m1) && next,
            Kind::Div { signed } => divides(m0, inst, signed, m1) && next,
            Kind::Cmov { cc } => moves_if(m0, inst, cc, m1) && next,
            Kind::Setcc { cc } => sets_if(m0, inst, cc, m1) && next,
            Kind::Jmp => jumps(m0, inst, m1, out),
            Kind::Jcc { cc } => branches(m0, inst, cc, m1, out),
            Kind::Call => calls(m0, inst, m1, out),
            Kind::Ret => returns_from(m0, inst, m1, out),
            Kind::ShadowStack => reads_shadow_stack(m0, inst, m1) && next,
            Kind::Trap => m1 == m0 && unsupported(out, inst.ip, "int3"@),
            Kind::Other => evaluates_other(m0, inst, m1, out),
        }
    }
}

/// One step: the instruction at the address is counted and evaluated.
pub open spec fn stepped(m0: Emulator, ip: u64, m1: Emulator, out: Step) -> bool {
    ||| {
        &&& decodes_to(*m0.pe, ip, None)
        &&& m1 == m0
        &&& out == Step::Stopped(Stop::Unreadable { site: ip })
    }
    ||| exists|inst: Inst, mid: Emulator| #[trigger]
        step_steps(m0, ip, inst, mid, m1, out)
}

pub open spec fn step_steps(
    m0: Emulator,
    ip: u64,
    inst: Inst,
    mid: Emulator,
    m1: Emulator,
    out: Step,
) -> bool {
    &&& decodes_to(*m0.pe, ip, Some(inst))
    &&& counted(m0, ip, mid)
    &&& evaluates(mid, inst, m1, out)
}

impl<'a> Emulator<'a> {
    /// The last `n` addresses visited.
    pub fn trace_tail(&self, n: usize) -> (r: Vec<u64>)
        ensures
            r@ == self.trace@.skip(
                if self.trace@.len() > n {
                    self.trace@.len() - n
                } else {
                    0
                },
            ),
    {
        let len: usize = self.trace.len();
        let skip: usize = if len > n {
            len - n
        } else {
            0
        };
        let mut out: Vec<u64> = Vec::new();
        let mut i: usize = skip;
        while i < len
            invariant
                skip <= i <= len,
                len == self.trace@.len(),
                out@ == self.trace@.subrange(skip as int, i as int),
            decreases len - i,
        {
            out.push(self.trace[i]);
            i = i + 1;
            proof {
                assert(out@ =~= self.trace@.subrange(skip as int, i as int));
            }
        }
        proof {
            assert(out@ =~= self.trace@.skip(skip as int));
        }
        out
    }

    fn count_step(&mut self, ip: u64)
        requires
            old(self).wf(),
            old(self).steps < usize::MAX,
        ensures
            final(self).wf(),
            counted(*old(self), ip, *final(self)),
    {
        let ghost m0 = *self;
        self.steps = self.steps + 1;
        if self.trace.len() == TRACE_TAIL_CAP {
            let _ = self.trace.pop_front();
            proof {
                assert(self.trace@ =~= m0.trace@.skip(1));
            }
        }
        self.trace.push_back(ip);
        proof {
            lemma_wf_grows(m0, *self);
        }
    }

    fn step_shadow_stack(&mut self, inst: &Inst)
        requires
            old(self).wf(),
            inst.wf(),
        ensures
            goes_on(*old(self), *final(self)),
            reads_shadow_stack(*old(self), *inst, *final(self)),
    {
        let ghost m0 = *self;
        proof {
            lemma_quiet(m0, m0);
        }
        if !self.assume_cet_disabled {
            let v = self.arena.opaque("rdssp", Width::W64);
            let ghost mid = *self;
            proof {
                lemma_quiet(m0, mid);
            }
            self.write_op(inst, 0, v);
            proof {
                assert(unknown_made(m0, mid, v, "rdssp"@));
                lemma_goes_on(m0, mid, *self);
            }
        }
    }

    fn step_other(&mut self, inst: &Inst) -> (out: Step)
        requires
            old(self).wf(),
            inst.wf(),
        ensures
            goes_on(*old(self), *final(self)),
            evaluates_other(*old(self), *inst, *final(self), out),
            crate::ir::branch::outcome_held(final(self).arena.nodes@, out),
    {
        let ghost m0 = *self;
        proof {
            lemma_quiet(m0, m0);
        }
        if let Some(v) = inst.vector_move() {
            self.step_vector(inst, v);
            return Step::Next(inst.head.next_ip);
        }
        if self.box_unmodelled && is_boxable(inst.head.mnemonic) {
            self.box_instruction(inst);
            return Step::Next(inst.head.next_ip);
        }
        Step::Stopped(Stop::Unsupported { site: inst.ip, text: inst.text() })
    }

    /// Evaluate one decoded instruction.
    pub(crate) fn evaluate(&mut self, inst: &Inst) -> (out: Step)
        requires
            old(self).wf(),
            inst.wf(),
        ensures
            final(self).wf(),
            final(self).arena.continues(old(self).arena),
            final(self).same_setup(*old(self)),
            final(self).steps == old(self).steps,
            evaluates(*old(self), *inst, *final(self), out),
            crate::ir::branch::outcome_held(final(self).arena.nodes@, out),
    {
        let ghost m0 = *self;
        proof {
            lemma_quiet(m0, m0);
        }
        let next: u64 = inst.head.next_ip;
        if self.box_unmodelled && inst.seg_relative() && is_boxable(inst.head.mnemonic) {
            self.box_instruction(inst);
            return Step::Next(next);
        }
        let k = kind(inst.head.mnemonic);
        match k {
            Kind::Nothing => {},
            Kind::Mov | Kind::Movzx | Kind::Movsx | Kind::Bswap | Kind::Not => {
                self.step_move(inst, k);
            },
            Kind::Lea => self.step_lea(inst),
            Kind::Xchg => self.step_xchg(inst),
            Kind::Exchange => self.step_exchange(inst),
            Kind::Push => self.step_push(inst),
            Kind::Pop => self.step_pop(inst),
            Kind::Pushfq => self.step_pushfq(inst),
            Kind::Popfq => self.step_popfq(inst),
            Kind::Sum { .. } | Kind::Difference { .. } | Kind::Compare | Kind::Test
            | Kind::Logic { .. } => {
                self.step_alu(inst, k);
            },
            Kind::Neg => self.step_neg(inst),
            Kind::Inc => self.step_count(inst, true),
            Kind::Dec => self.step_count(inst, false),
            Kind::Shift { op } => self.step_shift(inst, op),
            Kind::Bt => self.step_bt(inst),
            Kind::SignFill { width } => self.step_sign_fill(width),
            Kind::Imul => self.step_imul(inst),
            Kind::Mul => self.step_wide_product(inst, BinOp::MulHiU),
            Kind::Div { signed } => self.step_div(inst, signed),
            Kind::Cmov { cc } => self.step_cmov(inst, cc),
            Kind::Setcc { cc } => self.step_setcc(inst, cc),
            Kind::ShadowStack => self.step_shadow_stack(inst),
            _ => {
                return self.evaluate_transfer(inst, k);
            },
        }
        Step::Next(next)
    }

    fn evaluate_transfer(&mut self, inst: &Inst, k: Kind) -> (out: Step)
        requires
            old(self).wf(),
            inst.wf(),
            k == kind(inst.head.mnemonic),
            k is Jmp || k is Jcc || k is Call || k is Ret || k is Trap || k is Other,
        ensures
            final(self).wf(),
            final(self).arena.continues(old(self).arena),
            final(self).same_setup(*old(self)),
            final(self).steps == old(self).steps,
            match k {
                Kind::Jmp => jumps(*old(self), *inst, *final(self), out),
                Kind::Jcc { cc } => branches(*old(self), *inst, cc, *final(self), out),
                Kind::Call => calls(*old(self), *inst, *final(self), out),
                Kind::Ret => returns_from(*old(self), *inst, *final(self), out),
                Kind::Trap => *final(self) == *old(self) && unsupported(out, inst.ip, "int3"@),
                _ => evaluates_other(*old(self), *inst, *final(self), out),
            },
            crate::ir::branch::outcome_held(final(self).arena.nodes@, out),
    {
        let ghost m0 = *self;
        proof {
            lemma_quiet(m0, m0);
        }
        match k {
            Kind::Jmp => self.step_jmp(inst),
            Kind::Jcc { cc } => self.step_jcc(inst, cc),
            Kind::Call => self.step_call(inst),
            Kind::Ret => self.step_ret(inst),
            Kind::Trap => {
                Step::Stopped(Stop::Unsupported { site: inst.ip, text: "int3".to_string() })
            },
            _ => self.step_other(inst),
        }
    }

    /// Evaluate the instruction at an address.
    pub fn step(&mut self, ip: u64) -> (out: Step)
        requires
            old(self).wf(),
            old(self).steps < usize::MAX,
        ensures
            final(self).wf(),
            final(self).arena.continues(old(self).arena),
            final(self).same_setup(*old(self)),
            old(self).steps <= final(self).steps <= old(self).steps + 1,
            stepped(*old(self), ip, *final(self), out),
            crate::ir::branch::outcome_held(final(self).arena.nodes@, out),
    {
        let ghost m0 = *self;
        let inst = match decode_at(self.pe, ip) {
            Some(i) => i,
            None => {
                proof {
                    lemma_quiet(m0, m0);
                }
                return Step::Stopped(Stop::Unreadable { site: ip });
            },
        };
        self.count_step(ip);
        let ghost mid = *self;
        let out = self.evaluate(&inst);
        proof {
            assert(step_steps(m0, ip, inst, mid, *self, out));
            lemma_continues_twice(m0.arena, mid.arena, self.arena);
        }
        out
    }
}

} // verus!
