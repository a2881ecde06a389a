//! Moving what a block refers to into the arena of the recovered graph.

use crate::ir::event::{BoxedMem, Event};
use crate::ir::expr::{has, width_of, Arena, Ref};
use crate::ir::graph::Terminator;
use crate::ir::lift::lemma_event_grows;
use crate::ir::lower::{event_held, terminator_held};
use crate::ir::walk::memo_ok;
use std::collections::HashMap;
use vstd::prelude::*;

verus! {

broadcast use vstd::std_specs::hash::group_hash_axioms;

/// Whether one record of copies has all of another's.
pub open spec fn more_copies(a: Map<usize, Ref>, b: Map<usize, Ref>) -> bool {
    forall|k: usize| #[trigger] a.dom().contains(k) ==> b.dom().contains(k) && b[k] == a[k]
}

/// Whether a reference is to the copy of another.
pub open spec fn moved(memo: Map<usize, Ref>, a: Ref, b: Ref) -> bool {
    memo.dom().contains(a.idx) && b == memo[a.idx]
}

/// Whether a list names the copies of what another names.
pub open spec fn moved_list<K>(memo: Map<usize, Ref>, a: Seq<(K, Ref)>, b: Seq<(K, Ref)>) -> bool {
    &&& a.len() == b.len()
    &&& forall|i: int|
        0 <= i < a.len() ==> (#[trigger] b[i]).0 == a[i].0 && moved(memo, a[i].1, b[i].1)
}

/// Whether an event is another with copies in place of what it refers to.
pub open spec fn moved_event(memo: Map<usize, Ref>, a: Event, b: Event) -> bool {
    match (a, b) {
        (
            Event::Store { addr, value, width, site, region },
            Event::Store { addr: a1, value: v1, width: w1, site: s1, region: r1 },
        ) => moved(memo, addr, a1) && moved(memo, value, v1) && w1 == width && s1 == site && r1
            == region,
        (
            Event::Load { addr, value, width, site, region },
            Event::Load { addr: a1, value: v1, width: w1, site: s1, region: r1 },
        ) => moved(memo, addr, a1) && moved(memo, value, v1) && w1 == width && s1 == site && r1
            == region,
        (
            Event::Boxed { site, text, bytes, mem, defs, uses },
            Event::Boxed { site: s1, text: t1, bytes: b1, mem: m1, defs: d1, uses: u1 },
        ) => {
            &&& s1 == site
            &&& t1@ == text@
            &&& b1@ == bytes@
            &&& moved_mem(memo, mem, m1)
            &&& moved_list(memo, defs@, d1@)
            &&& moved_list(memo, uses@, u1@)
        },
        (
            Event::Call { target, site, rsp, import_slot, args, ret },
            Event::Call { target: t1, site: s1, rsp: p1, import_slot: i1, args: a1, ret: r1 },
        ) => {
            &&& s1 == site
            &&& p1 == rsp
            &&& i1 == import_slot
            &&& moved_option(memo, target, t1)
            &&& moved_option(memo, ret, r1)
            &&& moved_list(memo, args@, a1@)
        },
        _ => false,
    }
}

pub open spec fn moved_option(memo: Map<usize, Ref>, a: Option<Ref>, b: Option<Ref>) -> bool {
    match (a, b) {
        (Some(x), Some(y)) => moved(memo, x, y),
        (None, None) => true,
        _ => false,
    }
}

pub open spec fn moved_mem(memo: Map<usize, Ref>, a: Option<BoxedMem>, b: Option<BoxedMem>) -> bool {
    match (a, b) {
        (Some(x), Some(y)) => moved(memo, x.addr, y.addr) && y.bytes == x.bytes && y.writes
            == x.writes,
        (None, None) => true,
        _ => false,
    }
}

/// Whether events are others with copies in place of what they refer to.
pub open spec fn moved_events(memo: Map<usize, Ref>, a: Seq<Event>, b: Seq<Event>) -> bool {
    &&& a.len() == b.len()
    &&& forall|i: int| 0 <= i < a.len() ==> moved_event(memo, a[i], #[trigger] b[i])
}

/// Whether a terminator is another with copies in place of what it refers to.
pub open spec fn moved_terminator(memo: Map<usize, Ref>, a: Terminator, b: Terminator) -> bool {
    match (a, b) {
        (
            Terminator::Branch { predicate, taken, not_taken },
            Terminator::Branch { predicate: p1, taken: t1, not_taken: n1 },
        ) => moved(memo, predicate, p1) && t1 == taken && n1 == not_taken,
        (Terminator::Switch { selector, targets }, Terminator::Switch { selector: s1, targets: t1 }) =>
            moved(memo, selector, s1) && t1@ == targets@,
        (Terminator::Return { dest }, Terminator::Return { dest: d1 }) => moved(memo, dest, d1),
        (Terminator::Branch { .. }, _) => false,
        (Terminator::Switch { .. }, _) => false,
        (Terminator::Return { .. }, _) => false,
        _ => a == b,
    }
}

pub proof fn lemma_event_moved(m0: Map<usize, Ref>, m1: Map<usize, Ref>, a: Event, b: Event)
    requires
        more_copies(m0, m1),
        moved_event(m0, a, b),
    ensures
        moved_event(m1, a, b),
{
}

pub proof fn lemma_list_moved<K>(
    m0: Map<usize, Ref>,
    m1: Map<usize, Ref>,
    a: Seq<(K, Ref)>,
    b: Seq<(K, Ref)>,
)
    requires
        more_copies(m0, m1),
        moved_list(m0, a, b),
    ensures
        moved_list(m1, a, b),
{
}

/// What copying keeps: copies are added, to the arena and to the record.
pub open spec fn copying(
    src: Arena,
    d0: Arena,
    m0: Map<usize, Ref>,
    d1: Arena,
    m1: Map<usize, Ref>,
) -> bool {
    &&& d1.continues(d0)
    &&& memo_ok(src.nodes@, d1.nodes@, m1)
    &&& more_copies(m0, m1)
}

pub proof fn lemma_copying_twice(
    src: Arena,
    d0: Arena,
    m0: Map<usize, Ref>,
    d1: Arena,
    m1: Map<usize, Ref>,
    d2: Arena,
    m2: Map<usize, Ref>,
)
    requires
        copying(src, d0, m0, d1, m1),
        copying(src, d1, m1, d2, m2),
    ensures
        copying(src, d0, m0, d2, m2),
{
    crate::ir::subst::lemma_continues_twice(d0, d1, d2);
    assert forall|k: usize| #[trigger] m0.dom().contains(k) implies m2.dom().contains(k) && m2[k]
        == m0[k] by {
        assert(m1.dom().contains(k));
    }
}

/// Copies what a list refers to.
pub fn graft_list<K: Copy>(
    dst: &mut Arena,
    src: &Arena,
    list: &Vec<(K, Ref)>,
    memo: &mut HashMap<usize, Ref>,
) -> (out: Vec<(K, Ref)>)
    requires
        old(dst).wf(),
        src.wf(),
        memo_ok(src.nodes@, old(dst).nodes@, old(memo)@),
        forall|i: int| 0 <= i < list@.len() ==> has(src.nodes@, (#[trigger] list@[i]).1),
    ensures
        final(dst).wf(),
        copying(*src, *old(dst), old(memo)@, *final(dst), final(memo)@),
        moved_list(final(memo)@, list@, out@),
        forall|i: int|
            0 <= i < out@.len() ==> has(final(dst).nodes@, (#[trigger] out@[i]).1) && width_of(
                final(dst).nodes@,
                out@[i].1,
            ) == width_of(src.nodes@, list@[i].1),
{
    let ghost d0 = *dst;
    let ghost m0 = memo@;
    let mut out: Vec<(K, Ref)> = Vec::new();
    let mut i: usize = 0;
    while i < list.len()
        invariant
            i <= list@.len(),
            dst.wf(),
            src.wf(),
            copying(*src, d0, m0, *dst, memo@),
            moved_list(memo@, list@.take(i as int), out@),
            forall|k: int| 0 <= k < list@.len() ==> has(src.nodes@, (#[trigger] list@[k]).1),
            forall|k: int|
                0 <= k < out@.len() ==> has(dst.nodes@, (#[trigger] out@[k]).1) && width_of(
                    dst.nodes@,
                    out@[k].1,
                ) == width_of(src.nodes@, list@[k].1),
        decreases list@.len() - i,
    {
        let ghost d1 = *dst;
        let ghost m1 = memo@;
        let ghost o1 = out@;
        let (k, r) = list[i];
        proof {
            assert(has(src.nodes@, list@[i as int].1));
        }
        let c = dst.graft(src, r, memo);
        out.push((k, c));
        proof {
            lemma_copying_twice(*src, d0, m0, d1, m1, *dst, memo@);
            assert forall|j: int| 0 <= j < list@.take(i + 1).len() implies (#[trigger] out@[j]).0
                == list@.take(i + 1)[j].0 && moved(memo@, list@.take(i + 1)[j].1, out@[j].1) by {
                if j < i {
                    assert(out@[j] == o1[j]);
                    assert(list@.take(i as int)[j] == list@[j]);
                    assert(moved(m1, list@[j].1, o1[j].1));
                }
            }
            assert forall|j: int| 0 <= j < out@.len() implies has(dst.nodes@, (#[trigger] out@[j]).1)
                && width_of(dst.nodes@, out@[j].1) == width_of(src.nodes@, list@[j].1) by {
                if j < i {
                    assert(out@[j] == o1[j]);
                    assert(has(d1.nodes@, o1[j].1));
                }
            }
        }
        i = i + 1;
    }
    proof {
        assert(list@.take(list@.len() as int) =~= list@);
    }
    out
}

fn graft_option(
    dst: &mut Arena,
    src: &Arena,
    r: Option<Ref>,
    memo: &mut HashMap<usize, Ref>,
) -> (out: Option<Ref>)
    requires
        old(dst).wf(),
        src.wf(),
        memo_ok(src.nodes@, old(dst).nodes@, old(memo)@),
        r matches Some(x) ==> has(src.nodes@, x),
    ensures
        final(dst).wf(),
        copying(*src, *old(dst), old(memo)@, *final(dst), final(memo)@),
        moved_option(final(memo)@, r, out),
        out matches Some(x) ==> has(final(dst).nodes@, x),
{
    match r {
        Some(x) => Some(dst.graft(src, x, memo)),
        None => None,
    }
}

/// Copies what an event refers to.
pub fn graft_event(dst: &mut Arena, src: &Arena, e: Event, memo: &mut HashMap<usize, Ref>) -> (out:
    Event)
    requires
        old(dst).wf(),
        src.wf(),
        memo_ok(src.nodes@, old(dst).nodes@, old(memo)@),
        event_held(src.nodes@, e),
    ensures
        final(dst).wf(),
        copying(*src, *old(dst), old(memo)@, *final(dst), final(memo)@),
        moved_event(final(memo)@, e, out),
        event_held(final(dst).nodes@, out),
{
    let ghost d0 = *dst;
    let ghost m0 = memo@;
    match e {
        Event::Store { addr, value, width, site, region } => {
            let a = dst.graft(src, addr, memo);
            let ghost d1 = *dst;
            let ghost m1 = memo@;
            let v = dst.graft(src, value, memo);
            proof {
                lemma_copying_twice(*src, d0, m0, d1, m1, *dst, memo@);
            }
            Event::Store { addr: a, value: v, width, site, region }
        },
        Event::Load { addr, value, width, site, region } => {
            let a = dst.graft(src, addr, memo);
            let ghost d1 = *dst;
            let ghost m1 = memo@;
            let v = dst.graft(src, value, memo);
            proof {
                lemma_copying_twice(*src, d0, m0, d1, m1, *dst, memo@);
            }
            Event::Load { addr: a, value: v, width, site, region }
        },
        Event::Boxed { site, text, bytes, mem, defs, uses } => {
            let addr = graft_option(
                dst,
                src,
                match &mem {
                    Some(m) => Some(m.addr),
                    None => None,
                },
                memo,
            );
            let ghost d1 = *dst;
            let ghost m1 = memo@;
            let mem1 = match (mem, addr) {
                (Some(m), Some(a)) => Some(
                    BoxedMem { addr: a, bytes: m.bytes, writes: m.writes },
                ),
                _ => None,
            };
            let d = graft_list(dst, src, &defs, memo);
            let ghost d2 = *dst;
            let ghost m2 = memo@;
            let u = graft_list(dst, src, &uses, memo);
            proof {
                lemma_copying_twice(*src, d0, m0, d1, m1, d2, m2);
                lemma_copying_twice(*src, d0, m0, d2, m2, *dst, memo@);
                lemma_list_moved(m2, memo@, defs@, d@);
                assert forall|k: int| 0 <= k < d@.len() implies has(dst.nodes@, (#[trigger] d@[k]).1) by {
                    assert(has(d2.nodes@, d@[k].1));
                }
                lemma_copying_twice(*src, d1, m1, d2, m2, *dst, memo@);
            }
            Event::Boxed { site, text, bytes, mem: mem1, defs: d, uses: u }
        },
        Event::Call { target, site, rsp, import_slot, args, ret } => {
            let t = graft_option(dst, src, target, memo);
            let ghost d1 = *dst;
            let ghost m1 = memo@;
            let a = graft_list(dst, src, &args, memo);
            let ghost d2 = *dst;
            let ghost m2 = memo@;
            let r = graft_option(dst, src, ret, memo);
            proof {
                lemma_copying_twice(*src, d0, m0, d1, m1, d2, m2);
                lemma_copying_twice(*src, d0, m0, d2, m2, *dst, memo@);
                lemma_copying_twice(*src, d1, m1, d2, m2, *dst, memo@);
                lemma_list_moved(m2, memo@, args@, a@);
                assert forall|k: int| 0 <= k < a@.len() implies has(dst.nodes@, (#[trigger] a@[k]).1) by {
                    assert(has(d2.nodes@, a@[k].1));
                }
            }
            Event::Call { target: t, site, rsp, import_slot, args: a, ret: r }
        },
    }
}

/// Copies what events refer to, in order.
pub fn graft_events(
    dst: &mut Arena,
    src: &Arena,
    events: Vec<Event>,
    memo: &mut HashMap<usize, Ref>,
) -> (out: Vec<Event>)
    requires
        old(dst).wf(),
        src.wf(),
        memo_ok(src.nodes@, old(dst).nodes@, old(memo)@),
        forall|i: int| 0 <= i < events@.len() ==> event_held(src.nodes@, #[trigger] events@[i]),
    ensures
        final(dst).wf(),
        copying(*src, *old(dst), old(memo)@, *final(dst), final(memo)@),
        moved_events(final(memo)@, events@, out@),
        forall|i: int| 0 <= i < out@.len() ==> event_held(final(dst).nodes@, #[trigger] out@[i]),
{
    let ghost d0 = *dst;
    let ghost m0 = memo@;
    let mut out: Vec<Event> = Vec::new();
    let mut i: usize = 0;
    while i < events.len()
        invariant
            i <= events@.len(),
            dst.wf(),
            src.wf(),
            copying(*src, d0, m0, *dst, memo@),
            out@.len() == i,
            forall|k: int| 0 <= k < events@.len() ==> event_held(src.nodes@, #[trigger] events@[k]),
            forall|k: int| 0 <= k < i ==> moved_event(memo@, events@[k], #[trigger] out@[k]),
            forall|k: int| 0 <= k < i ==> event_held(dst.nodes@, #[trigger] out@[k]),
        decreases events@.len() - i,
    {
        let ghost d1 = *dst;
        let ghost m1 = memo@;
        let ghost o1 = out@;
        let e = events[i].clone();
        proof {
            assert(event_held(src.nodes@, events@[i as int]));
            assert(event_held(src.nodes@, e));
        }
        let g = graft_event(dst, src, e, memo);
        out.push(g);
        proof {
            lemma_copying_twice(*src, d0, m0, d1, m1, *dst, memo@);
            assert forall|k: int| 0 <= k < i + 1 implies moved_event(
                memo@,
                events@[k],
                #[trigger] out@[k],
            ) && event_held(dst.nodes@, out@[k]) by {
                if k < i {
                    assert(out@[k] == o1[k]);
                    lemma_event_moved(m1, memo@, events@[k], o1[k]);
                    lemma_event_grows(o1[k], d1.nodes@, dst.nodes@);
                } else {
                    lemma_same_moved(memo@, events@[k], e, out@[k]);
                }
            }
        }
        i = i + 1;
    }
    out
}

proof fn lemma_same_moved(memo: Map<usize, Ref>, a: Event, b: Event, c: Event)
    requires
        crate::ir::event::same_event(b, a),
        moved_event(memo, b, c),
    ensures
        moved_event(memo, a, c),
{
}

/// Copies what a terminator refers to.
pub fn graft_terminator(
    dst: &mut Arena,
    src: &Arena,
    t: Terminator,
    memo: &mut HashMap<usize, Ref>,
) -> (out: Terminator)
    requires
        old(dst).wf(),
        src.wf(),
        memo_ok(src.nodes@, old(dst).nodes@, old(memo)@),
        terminator_held(src.nodes@, t),
    ensures
        final(dst).wf(),
        copying(*src, *old(dst), old(memo)@, *final(dst), final(memo)@),
        moved_terminator(final(memo)@, t, out),
        terminator_held(final(dst).nodes@, out),
{
    match t {
        Terminator::Branch { predicate, taken, not_taken } => {
            let p = dst.graft(src, predicate, memo);
            Terminator::Branch { predicate: p, taken, not_taken }
        },
        Terminator::Switch { selector, targets } => {
            let s = dst.graft(src, selector, memo);
            Terminator::Switch { selector: s, targets }
        },
        Terminator::Return { dest } => {
            let d = dst.graft(src, dest, memo);
            Terminator::Return { dest: d }
        },
        other => other,
    }
}

} // verus!
