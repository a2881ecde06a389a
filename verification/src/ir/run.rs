//! Runs of many steps.

use crate::ir::branch::vm_pointer;
use crate::ir::event::{Step, Stop};
use crate::ir::expr::{const_of, has};
use crate::ir::lift::Emulator;
use crate::ir::region::const_run;
use crate::ir::step::stepped;
use crate::ir::subst::lemma_continues_twice;
use crate::ir::value::Reg;
use crate::vm::state::byte_addr;
use vstd::prelude::*;

verus! {

/// Steps between two looks at the frame while the VIP slot is searched.
pub const SAMPLE_EVERY: usize = 16;

/// Words of the frame that are looked at.
pub const SAMPLE_WORDS: u64 = 64;

/// Consecutive steps: each machine is the one before after the instruction at its address.
pub open spec fn run_chain(ms: Seq<Emulator>, ips: Seq<u64>) -> bool {
    &&& ms.len() == ips.len()
    &&& ms.len() >= 1
    &&& forall|i: int|
        0 <= i < ms.len() - 1 ==> #[trigger] ms[i].pe.mapped(ips[i]) && stepped(
            ms[i],
            ips[i],
            ms[i + 1],
            Step::Next(ips[i + 1]),
        )
}

/// No machine on the way had too many nodes.
pub open spec fn all_within(ms: Seq<Emulator>) -> bool {
    forall|i: int|
        0 <= i < ms.len() - 1 ==> (#[trigger] ms[i]).arena.nodes@.len() <= ms[i].node_limit
}

/// Why a run ends at a machine, after `n` steps of `budget`.
pub open spec fn run_ends(m: Emulator, ip: u64, n: int, budget: int, m1: Emulator, stop: Stop) -> bool {
    if n >= budget {
        m1 == m && stop == (Stop::Budget { site: ip })
    } else if !m.pe.mapped(ip) {
        m1 == m && stop == (Stop::OutOfImage { site: ip })
    } else if m.arena.nodes@.len() > m.node_limit {
        m1 == m && stop == (Stop::Diverged { site: ip, nodes: m.arena.nodes@.len() as usize })
    } else {
        stepped(m, ip, m1, Step::Stopped(stop))
    }
}

/// Steps from `start` until evaluation stops or the budget runs out. Runaway growth of the
/// arena ends a run too: folding has stopped working, and going on would cost time without
/// a usable result.
pub open spec fn runs(m0: Emulator, start: u64, budget: int, m1: Emulator, stop: Stop) -> bool {
    exists|ms: Seq<Emulator>, ips: Seq<u64>| #[trigger]
        run_chain(ms, ips) && all_within(ms) && ms.first() == m0 && ips.first() == start
            && ms.len() - 1 <= budget && run_ends(
            ms.last(),
            ips.last(),
            ms.len() - 1,
            budget,
            m1,
            stop,
        )
}

/// What was seen at each offset of the frame: the distinct pointers into the VM section.
pub struct Observed {
    pub offset: u64,
    pub values: Vec<u64>,
}

/// [`Observed`] as plain values.
pub open spec fn seen_view(seen: Seq<Observed>) -> Seq<(u64, Seq<u64>)> {
    seen.map_values(|o: Observed| (o.offset, o.values@))
}

/// Place of an offset among those from `k` on.
pub open spec fn offset_from(seen: Seq<(u64, Seq<u64>)>, off: u64, k: int) -> Option<int>
    decreases seen.len() - k,
{
    if k < 0 || k >= seen.len() {
        None
    } else if seen[k].0 == off {
        Some(k)
    } else {
        offset_from(seen, off, k + 1)
    }
}

/// Each offset is listed once, and each value once at its offset.
pub open spec fn seen_once(seen: Seq<(u64, Seq<u64>)>) -> bool {
    &&& forall|i: int, j: int| 0 <= i < j < seen.len() ==> (#[trigger] seen[i]).0 != (#[trigger] seen[j]).0
    &&& forall|i: int| 0 <= i < seen.len() ==> (#[trigger] seen[i]).1.no_duplicates()
}

/// An offset that is not found is not listed.
proof fn lemma_no_offset(seen: Seq<(u64, Seq<u64>)>, off: u64, k: int)
    requires
        0 <= k,
        offset_from(seen, off, k) is None,
    ensures
        forall|i: int| k <= i < seen.len() ==> (#[trigger] seen[i]).0 != off,
    decreases seen.len() - k,
{
    if k < seen.len() && seen[k].0 != off {
        lemma_no_offset(seen, off, k + 1);
    }
}

/// Seeing one more value keeps everything listed once.
proof fn lemma_seen_once(seen: Seq<(u64, Seq<u64>)>, off: u64, v: u64)
    requires
        seen_once(seen),
    ensures
        seen_once(observed(seen, off, v)),
{
    lemma_offset_from(seen, off, 0);
    match offset_from(seen, off, 0) {
        Some(i) => {
            let next = observed(seen, off, v);
            assert forall|j: int| 0 <= j < next.len() implies (#[trigger] next[j]).1.no_duplicates() by {
                assert(seen[j].1.no_duplicates());
            }
            assert forall|a: int, b: int| 0 <= a < b < next.len() implies (#[trigger] next[a]).0
                != (#[trigger] next[b]).0 by {
                assert(seen[a].0 != seen[b].0);
            }
        },
        None => {
            lemma_no_offset(seen, off, 0);
        },
    }
}

proof fn lemma_offset_from(seen: Seq<(u64, Seq<u64>)>, off: u64, k: int)
    requires
        0 <= k,
    ensures
        offset_from(seen, off, k) matches Some(i) ==> k <= i < seen.len() && seen[i].0 == off,
    decreases seen.len() - k,
{
    if k < seen.len() && seen[k].0 != off {
        lemma_offset_from(seen, off, k + 1);
    }
}

/// One more value seen at an offset.
pub open spec fn observed(seen: Seq<(u64, Seq<u64>)>, off: u64, v: u64) -> Seq<(u64, Seq<u64>)> {
    match offset_from(seen, off, 0) {
        Some(i) => if seen[i].1.contains(v) {
            seen
        } else {
            seen.update(i, (off, seen[i].1.push(v)))
        },
        None => seen.push((off, seq![v])),
    }
}

/// What is seen of the first `k` words of a frame.
pub open spec fn sampled(
    m: Emulator,
    base: u64,
    seen: Seq<(u64, Seq<u64>)>,
    k: int,
) -> Seq<(u64, Seq<u64>)>
    decreases k,
{
    if k <= 0 {
        seen
    } else {
        let before = sampled(m, base, seen, k - 1);
        let off = (8 * (k - 1)) as u64;
        match const_run(m.state.mem@, byte_addr(base, off as int), 8) {
            Some(v) => if vm_pointer(m, v) {
                observed(before, off, v)
            } else {
                before
            },
            None => before,
        }
    }
}

/// What is seen in a machine, where its frame is known.
pub open spec fn looked(m: Emulator, seen: Seq<(u64, Seq<u64>)>) -> Seq<(u64, Seq<u64>)> {
    match const_of(m.arena.nodes@, m.state.reg(Reg::Rbp)) {
        Some(base) => sampled(m, base, seen, SAMPLE_WORDS as int),
        None => seen,
    }
}

/// What was seen in the first `k` machines, looking at every sixteenth.
pub open spec fn seen_upto(ms: Seq<Emulator>, k: int) -> Seq<(u64, Seq<u64>)>
    decreases k,
{
    if k <= 0 {
        Seq::empty()
    } else if (k - 1) % (SAMPLE_EVERY as int) == 0 {
        looked(ms[k - 1], seen_upto(ms, k - 1))
    } else {
        seen_upto(ms, k - 1)
    }
}

/// The offset whose value moves most; of two that move as much, the lower. A value that
/// never moves is not a position.
pub open spec fn best_offset(seen: Seq<(u64, Seq<u64>)>, r: Option<u64>) -> bool {
    match r {
        Some(off) => exists|i: int|
            0 <= i < seen.len() && (#[trigger] seen[i]).0 == off && seen[i].1.len() > 1 && moves_most(
                seen,
                i,
            ),
        None => forall|i: int| 0 <= i < seen.len() ==> (#[trigger] seen[i]).1.len() <= 1,
    }
}

pub open spec fn moves_most(seen: Seq<(u64, Seq<u64>)>, i: int) -> bool {
    forall|j: int|
        0 <= j < seen.len() ==> (#[trigger] seen[j]).1.len() < seen[i].1.len() || (seen[j].1.len()
            == seen[i].1.len() && seen[i].0 <= seen[j].0)
}

/// Choose the VIP slot from what was seen at each offset.
pub fn pick_vip_slot(seen: &Vec<Observed>) -> (r: Option<u64>)
    requires
        seen_once(seen_view(seen@)),
    ensures
        best_offset(seen_view(seen@), r),
{
    let ghost view = seen_view(seen@);
    let mut best: Option<usize> = None;
    let mut i: usize = 0;
    while i < seen.len()
        invariant
            i <= seen@.len(),
            view == seen_view(seen@),
            match best {
                Some(b) => b < i && view[b as int].1.len() > 1 && forall|j: int|
                    0 <= j < i ==> (#[trigger] view[j]).1.len() < view[b as int].1.len() || (
                    view[j].1.len() == view[b as int].1.len() && view[b as int].0 <= view[j].0),
                None => forall|j: int| 0 <= j < i ==> (#[trigger] view[j]).1.len() <= 1,
            },
        decreases seen@.len() - i,
    {
        proof {
            assert(view[i as int] == (seen@[i as int].offset, seen@[i as int].values@));
        }
        let n: usize = seen[i].values.len();
        let better: bool = match best {
            Some(b) => {
                proof {
                    assert(view[b as int] == (seen@[b as int].offset, seen@[b as int].values@));
                }
                let most: usize = seen[b].values.len();
                n > most || (n == most && seen[i].offset < seen[b].offset)
            },
            None => n > 1,
        };
        if better {
            best = Some(i);
        }
        i = i + 1;
    }
    match best {
        Some(b) => {
            proof {
                assert(view[b as int] == (seen@[b as int].offset, seen@[b as int].values@));
                assert(moves_most(view, b as int));
            }
            Some(seen[b].offset)
        },
        None => None,
    }
}

/// One more value seen at an offset.
pub fn observe(seen: &mut Vec<Observed>, off: u64, v: u64)
    ensures
        seen_view(final(seen)@) == observed(seen_view(old(seen)@), off, v),
        seen_once(seen_view(old(seen)@)) ==> seen_once(seen_view(final(seen)@)),
{
    proof {
        if seen_once(seen_view(seen@)) {
            lemma_seen_once(seen_view(seen@), off, v);
        }
    }
    let ghost s0 = seen@;
    let ghost view = seen_view(s0);
    let mut i: usize = 0;
    while i < seen.len()
        invariant
            i <= seen@.len(),
            s0 == old(seen)@,
            seen@ == s0,
            view == seen_view(s0),
            offset_from(view, off, 0) == offset_from(view, off, i as int),
        decreases seen@.len() - i,
    {
        proof {
            assert(view[i as int] == (s0[i as int].offset, s0[i as int].values@));
        }
        if seen[i].offset == off {
            if !contains(&seen[i].values, v) {
                seen[i].values.push(v);
                proof {
                    assert(seen_view(seen@) =~= view.update(
                        i as int,
                        (off, view[i as int].1.push(v)),
                    ));
                }
            }
            return;
        }
        i = i + 1;
    }
    let values: Vec<u64> = vec![v];
    seen.push(Observed { offset: off, values });
    proof {
        assert(values@ =~= seq![v]);
        assert(seen_view(seen@) =~= view.push((off, seq![v])));
    }
}

fn contains(values: &Vec<u64>, v: u64) -> (r: bool)
    ensures
        r == values@.contains(v),
{
    let mut i: usize = 0;
    while i < values.len()
        invariant
            i <= values@.len(),
            forall|k: int| 0 <= k < i ==> #[trigger] values@[k] != v,
        decreases values@.len() - i,
    {
        if values[i] == v {
            return true;
        }
        i = i + 1;
    }
    false
}

/// The search for the VIP slot ends: out of the image, at a stop, or out of budget.
pub open spec fn search_ends(m: Emulator, ip: u64, n: int, budget: int, m1: Emulator) -> bool {
    if n >= budget || !m.pe.mapped(ip) {
        m1 == m
    } else {
        exists|stop: Stop| #[trigger] stepped(m, ip, m1, Step::Stopped(stop))
    }
}

/// Machines looked at in a search: each that was about to take a step.
pub open spec fn looked_at(m: Emulator, ip: u64, n: int, budget: int) -> int {
    if n >= budget || !m.pe.mapped(ip) {
        n
    } else {
        n + 1
    }
}

/// Steps from `start`, looking at the frame on the way; the result is the offset whose
/// pointer moves most.
pub open spec fn finds_vip_slot(
    m0: Emulator,
    start: u64,
    budget: int,
    m1: Emulator,
    r: Option<u64>,
) -> bool {
    exists|ms: Seq<Emulator>, ips: Seq<u64>| #[trigger]
        run_chain(ms, ips) && ms.first() == m0 && ips.first() == start && ms.len() - 1 <= budget
            && search_ends(ms.last(), ips.last(), ms.len() - 1, budget, m1) && best_offset(
            seen_upto(ms, looked_at(ms.last(), ips.last(), ms.len() - 1, budget)),
            r,
        )
}

proof fn lemma_seen_same(a: Seq<Emulator>, b: Seq<Emulator>, k: int)
    requires
        k <= a.len(),
        k <= b.len(),
        forall|i: int| 0 <= i < k ==> a[i] == b[i],
    ensures
        seen_upto(a, k) == seen_upto(b, k),
    decreases k,
{
    if k > 0 {
        lemma_seen_same(a, b, k - 1);
    }
}

proof fn lemma_chain_push(ms: Seq<Emulator>, ips: Seq<u64>, m: Emulator, ip: u64)
    requires
        run_chain(ms, ips),
        ms.last().pe.mapped(ips.last()),
        stepped(ms.last(), ips.last(), m, Step::Next(ip)),
    ensures
        run_chain(ms.push(m), ips.push(ip)),
{
    let a = ms.push(m);
    let b = ips.push(ip);
    assert forall|i: int| 0 <= i < a.len() - 1 implies #[trigger] a[i].pe.mapped(b[i]) && stepped(
        a[i],
        b[i],
        a[i + 1],
        Step::Next(b[i + 1]),
    ) by {
        assert(a[i] == ms[i]);
        assert(b[i] == ips[i]);
        if i < ms.len() - 1 {
            assert(ms[i].pe.mapped(ips[i]));
            assert(a[i + 1] == ms[i + 1]);
            assert(b[i + 1] == ips[i + 1]);
        }
    }
}

impl<'a> Emulator<'a> {
    /// Run until evaluation stops or the budget runs out.
    pub fn run(&mut self, start: u64, budget: usize) -> (stop: Stop)
        requires
            old(self).wf(),
            old(self).steps + budget <= usize::MAX,
        ensures
            final(self).wf(),
            final(self).arena.continues(old(self).arena),
            final(self).same_setup(*old(self)),
            old(self).steps <= final(self).steps <= old(self).steps + budget,
            runs(*old(self), start, budget as int, *final(self), stop),
            crate::ir::branch::stop_held(final(self).arena.nodes@, stop),
    {
        let ghost m0 = *self;
        let mut ip: u64 = start;
        let mut n: usize = 0;
        let ghost mut ms: Seq<Emulator> = seq![m0];
        let ghost mut ips: Seq<u64> = seq![start];
        while n < budget
            invariant
                n <= budget,
                m0 == *old(self),
                m0.steps + budget <= usize::MAX,
                self.wf(),
                self.arena.continues(m0.arena),
                self.same_setup(m0),
                m0.steps <= self.steps <= m0.steps + n,
                run_chain(ms, ips),
                all_within(ms),
                ms.len() == n + 1,
                ms.first() == m0,
                ips.first() == start,
                ms.last() == *self,
                ips.last() == ip,
            decreases budget - n,
        {
            if self.pe.section_for_va(ip).is_none() {
                return Stop::OutOfImage { site: ip };
            }
            let nodes: usize = self.arena.len();
            if nodes > self.node_limit {
                return Stop::Diverged { site: ip, nodes };
            }
            let ghost before = *self;
            let out = self.step(ip);
            proof {
                lemma_continues_twice(m0.arena, before.arena, self.arena);
            }
            match out {
                Step::Next(next) => {
                    proof {
                        lemma_chain_push(ms, ips, *self, next);
                        let was = ms;
                        ms = ms.push(*self);
                        ips = ips.push(next);
                        assert forall|i: int| 0 <= i < ms.len() - 1 implies (
                        #[trigger] ms[i]).arena.nodes@.len() <= ms[i].node_limit by {
                            assert(ms[i] == was[i]);
                        }
                    }
                    ip = next;
                },
                Step::Stopped(stop) => {
                    return stop;
                },
            }
            n = n + 1;
        }
        Stop::Budget { site: ip }
    }

    fn look(&self, seen: &mut Vec<Observed>)
        requires
            self.wf(),
            seen_once(seen_view(old(seen)@)),
        ensures
            seen_view(final(seen)@) == looked(*self, seen_view(old(seen)@)),
            seen_once(seen_view(final(seen)@)),
    {
        proof {
            assert(has(self.arena.nodes@, self.state.regs@[Reg::Rbp.number() as int]));
        }
        let base: u64 = match self.arena.as_const(self.state.reg(Reg::Rbp)) {
            Some(b) => b,
            None => {
                return;
            },
        };
        let ghost s0 = seen_view(seen@);
        let mut k: u64 = 0;
        while k < SAMPLE_WORDS
            invariant
                k <= SAMPLE_WORDS,
                seen_view(seen@) == sampled(*self, base, s0, k as int),
                seen_once(seen_view(seen@)),
            decreases SAMPLE_WORDS - k,
        {
            let off: u64 = 8 * k;
            if let Some(v) = self.read_const_qword(base.wrapping_add(off)) {
                if self.is_vm_pointer(v) {
                    observe(seen, off, v);
                }
            }
            k = k + 1;
        }
    }

    /// Find the slot of the frame that holds the bytecode position: the one that moves.
    pub fn discover_vip_slot(&mut self, start: u64, budget: usize) -> (r: Option<u64>)
        requires
            old(self).wf(),
            old(self).steps + budget <= usize::MAX,
        ensures
            final(self).wf(),
            final(self).arena.continues(old(self).arena),
            final(self).same_setup(*old(self)),
            final(self).steps <= old(self).steps + budget,
            finds_vip_slot(*old(self), start, budget as int, *final(self), r),
    {
        let ghost m0 = *self;
        let mut seen: Vec<Observed> = Vec::new();
        let mut ip: u64 = start;
        let mut n: usize = 0;
        let ghost mut ms: Seq<Emulator> = seq![m0];
        let ghost mut ips: Seq<u64> = seq![start];
        proof {
            assert(seen_view(seen@) =~= seen_upto(ms, 0));
        }
        while n < budget
            invariant
                n <= budget,
                m0 == *old(self),
                m0.steps + budget <= usize::MAX,
                self.wf(),
                self.arena.continues(m0.arena),
                self.same_setup(m0),
                self.steps <= m0.steps + n,
                run_chain(ms, ips),
                ms.len() == n + 1,
                ms.first() == m0,
                ips.first() == start,
                ms.last() == *self,
                ips.last() == ip,
                seen_view(seen@) == seen_upto(ms, n as int),
                seen_once(seen_view(seen@)),
            decreases budget - n,
        {
            if self.pe.section_for_va(ip).is_none() {
                return pick_vip_slot(&seen);
            }
            if n % SAMPLE_EVERY == 0 {
                self.look(&mut seen);
            }
            proof {
                assert(ms[n as int] == *self);
                assert(seen_view(seen@) == seen_upto(ms, n + 1));
            }
            let ghost before = *self;
            let out = self.step(ip);
            proof {
                lemma_continues_twice(m0.arena, before.arena, self.arena);
            }
            match out {
                Step::Next(next) => {
                    proof {
                        lemma_chain_push(ms, ips, *self, next);
                        lemma_seen_same(ms, ms.push(*self), n + 1);
                        ms = ms.push(*self);
                        ips = ips.push(next);
                    }
                    ip = next;
                },
                Step::Stopped(stop) => {
                    proof {
                        assert(stepped(before, ip, *self, Step::Stopped(stop)));
                        assert(search_ends(ms.last(), ips.last(), ms.len() - 1, budget as int, *self));
                    }
                    return pick_vip_slot(&seen);
                },
            }
            n = n + 1;
        }
        pick_vip_slot(&seen)
    }
}

} // verus!
