//! Rebuilding values with pinned leaves replaced by their concrete values.

use crate::ir::expr::{
    const_of, eval, extends, has, op_of, operands_before, some_env, width_of, Arena, Env, Node, Op, Ref,
};
use crate::ir::fold::{bin_val, sign_extend_spec, un_val};
use crate::ir::lift::{lemma_wf_grows, memos_ok, Emulator, Fold};
use crate::ir::settle::{
    bytes_from, entry_settled, held_bytes, known_by, lemma_constant_value,
    lemma_entry_settled_grows, lemma_entry_settled_less, lemma_join_grows,
    lemma_reaching_is_symbolic, lemma_settled_grows, resolved, settled, still_held, Known,
};
use crate::ir::value::Width;
use crate::vm::image::Image;
use crate::vm::state::{byte_addr, byte_ok, join_bytes, Byte, State};
use vstd::prelude::*;

verus! {

broadcast use vstd::std_specs::hash::group_hash_axioms;

/// The value the first of the pins from `k` on gives a node.
pub open spec fn pin_from(pins: Seq<(Ref, u64)>, r: Ref, k: int) -> Option<u64>
    decreases pins.len() - k,
{
    if k < 0 || k >= pins.len() {
        None
    } else if pins[k].0 == r {
        Some(pins[k].1)
    } else {
        pin_from(pins, r, k + 1)
    }
}

/// The value a node is pinned to.
pub open spec fn pin_of(pins: Seq<(Ref, u64)>, r: Ref) -> Option<u64> {
    pin_from(pins, r, 0)
}

/// Whether a node has one operand, and it is `x`.
pub open spec fn unary_on(op: Op, x: Ref) -> bool {
    match op {
        Op::Un(_, a) | Op::Zext(a) | Op::Sext(a) | Op::Trunc(a) => a == x,
        _ => false,
    }
}

/// The value of `r` under a valuation when every pinned node has the value it is pinned
/// to.
pub open spec fn pinned(ns: Seq<Node>, r: Ref, pins: Seq<(Ref, u64)>, e: Env) -> u64
    decreases r.idx,
{
    if !(r.idx < ns.len() && operands_before(ns[r.idx as int].op, r.idx as int)) {
        0
    } else {
        let w = ns[r.idx as int].width;
        match pin_of(pins, r) {
            Some(v) => v & w.mask(),
            None => match ns[r.idx as int].op {
                Op::Load(a, gen_at) => (e.mem)(pinned(ns, a, pins, e), gen_at, w) & w.mask(),
                Op::Bin(op, a, b) => bin_val(
                    op,
                    pinned(ns, a, pins, e),
                    pinned(ns, b, pins, e),
                    width_of(ns, a).wider(width_of(ns, b)),
                ),
                Op::Un(op, a) => un_val(op, pinned(ns, a, pins, e), w),
                Op::Zext(a) => pinned(ns, a, pins, e),
                Op::Sext(a) => sign_extend_spec(pinned(ns, a, pins, e), width_of(ns, a)) & w.mask(),
                Op::Trunc(a) => pinned(ns, a, pins, e) & w.mask(),
                Op::Select(c, a, b) => if pinned(ns, c, pins, e) != 0 {
                    pinned(ns, a, pins, e)
                } else {
                    pinned(ns, b, pins, e) & w.mask()
                },
                _ => eval(ns, r, e),
            },
        }
    }
}

/// Whether `r` transitively reaches any pinned node.
pub open spec fn reaches_pin(ns: Seq<Node>, r: Ref, pins: Seq<(Ref, u64)>) -> bool
    decreases r.idx,
{
    if !(r.idx < ns.len() && operands_before(ns[r.idx as int].op, r.idx as int)) {
        false
    } else {
        pin_of(pins, r) is Some || match ns[r.idx as int].op {
            Op::Load(a, _) | Op::Un(_, a) | Op::Zext(a) | Op::Sext(a) | Op::Trunc(a) => reaches_pin(
                ns,
                a,
                pins,
            ),
            Op::Bin(_, a, b) => reaches_pin(ns, a, pins) || reaches_pin(ns, b, pins),
            Op::Select(c, a, b) => reaches_pin(ns, c, pins) || reaches_pin(ns, a, pins)
                || reaches_pin(ns, b, pins),
            _ => false,
        }
    }
}

/// A value that reaches no pin does not change.
proof fn lemma_unpinned(ns: Seq<Node>, r: Ref, pins: Seq<(Ref, u64)>, e: Env)
    requires
        !reaches_pin(ns, r, pins),
    ensures
        pinned(ns, r, pins, e) == eval(ns, r, e),
    decreases r.idx,
{
    if r.idx < ns.len() && operands_before(ns[r.idx as int].op, r.idx as int) {
        match ns[r.idx as int].op {
            Op::Load(a, _) | Op::Un(_, a) | Op::Zext(a) | Op::Sext(a) | Op::Trunc(a) => {
                lemma_unpinned(ns, a, pins, e);
            },
            Op::Bin(_, a, b) => {
                lemma_unpinned(ns, a, pins, e);
                lemma_unpinned(ns, b, pins, e);
            },
            Op::Select(c, a, b) => {
                lemma_unpinned(ns, c, pins, e);
                lemma_unpinned(ns, a, pins, e);
                lemma_unpinned(ns, b, pins, e);
            },
            _ => {},
        }
    }
}

/// Where the pinned nodes have the values they are pinned to, pinning changes nothing.
pub proof fn pinning_to_the_value_changes_nothing(
    ns: Seq<Node>,
    r: Ref,
    pins: Seq<(Ref, u64)>,
    e: Env,
)
    requires
        forall|x: Ref|
            pin_of(pins, x) is Some && has(ns, x) ==> #[trigger] eval(ns, x, e) == pin_of(
                pins,
                x,
            )->0 & width_of(ns, x).mask(),
    ensures
        pinned(ns, r, pins, e) == eval(ns, r, e),
    decreases r.idx,
{
    if r.idx < ns.len() && operands_before(ns[r.idx as int].op, r.idx as int) {
        if pin_of(pins, r) is Some {
            assert(eval(ns, r, e) == pin_of(pins, r)->0 & width_of(ns, r).mask());
        } else {
            match ns[r.idx as int].op {
                Op::Load(a, _) | Op::Un(_, a) | Op::Zext(a) | Op::Sext(a) | Op::Trunc(a) => {
                    pinning_to_the_value_changes_nothing(ns, a, pins, e);
                },
                Op::Bin(_, a, b) => {
                    pinning_to_the_value_changes_nothing(ns, a, pins, e);
                    pinning_to_the_value_changes_nothing(ns, b, pins, e);
                },
                Op::Select(c, a, b) => {
                    pinning_to_the_value_changes_nothing(ns, c, pins, e);
                    pinning_to_the_value_changes_nothing(ns, a, pins, e);
                    pinning_to_the_value_changes_nothing(ns, b, pins, e);
                },
                _ => {},
            }
        }
    }
}

pub proof fn lemma_pinned_grows(
    a: Seq<Node>,
    b: Seq<Node>,
    r: Ref,
    pins: Seq<(Ref, u64)>,
    e: Env,
)
    requires
        crate::ir::expr::nodes_ok(a),
        extends(a, b),
        r.idx < a.len(),
    ensures
        pinned(b, r, pins, e) == pinned(a, r, pins, e),
        reaches_pin(b, r, pins) == reaches_pin(a, r, pins),
    decreases r.idx,
{
    assert(b[r.idx as int] == a[r.idx as int]);
    crate::ir::expr::lemma_extends(a, b, r, e);
    if operands_before(a[r.idx as int].op, r.idx as int) {
        match a[r.idx as int].op {
            Op::Load(x, _) | Op::Un(_, x) | Op::Zext(x) | Op::Sext(x) | Op::Trunc(x) => {
                assert(b[x.idx as int] == a[x.idx as int]);
                lemma_pinned_grows(a, b, x, pins, e);
            },
            Op::Bin(_, x, y) => {
                assert(b[x.idx as int] == a[x.idx as int]);
                assert(b[y.idx as int] == a[y.idx as int]);
                lemma_pinned_grows(a, b, x, pins, e);
                lemma_pinned_grows(a, b, y, pins, e);
            },
            Op::Select(c, x, y) => {
                lemma_pinned_grows(a, b, c, pins, e);
                lemma_pinned_grows(a, b, x, pins, e);
                lemma_pinned_grows(a, b, y, pins, e);
            },
            _ => {},
        }
    }
}

/// Every pinned node is in the arena, and no constant.
#[verifier::opaque]
pub open spec fn pins_hold(ns: Seq<Node>, pins: Seq<(Ref, u64)>) -> bool {
    forall|i: int|
        0 <= i < pins.len() ==> has(ns, (#[trigger] pins[i]).0) && const_of(ns, pins[i].0) is None
}

/// Every resolved load found a node of the arena.
#[verifier::opaque]
pub open spec fn fold_held(ns: Seq<Node>, folded: Seq<Fold>) -> bool {
    forall|i: int| 0 <= i < folded.len() ==> has(ns, (#[trigger] folded[i]).value)
}

/// Whether memory gives what a resolved load found.
pub open spec fn fold_agrees(ns: Seq<Node>, f: Fold, e: Env) -> bool {
    (e.mem)(f.addr, f.generation, f.width) & f.width.mask() == eval(ns, f.value, e)
}

/// Whether memory gives what every resolved load found.
pub open spec fn agrees(ns: Seq<Node>, folded: Seq<Fold>, e: Env) -> bool {
    forall|i: int| 0 <= i < folded.len() ==> fold_agrees(ns, #[trigger] folded[i], e)
}

/// Whether `v` is node `k` rebuilt under the pins.
pub open spec fn entry_ok(
    ns: Seq<Node>,
    pins: Seq<(Ref, u64)>,
    folded: Seq<Fold>,
    k: usize,
    v: Ref,
) -> bool {
    &&& k < ns.len()
    &&& has(ns, v)
    &&& width_of(ns, v) == width_of(ns, Ref { idx: k })
    &&& forall|e: Env|
        agrees(ns, folded, e) ==> #[trigger] eval(ns, v, e) == pinned(ns, Ref { idx: k }, pins, e)
}

proof fn lemma_agrees_shrinks(
    a: Seq<Node>,
    b: Seq<Node>,
    f0: Seq<Fold>,
    f1: Seq<Fold>,
    e: Env,
)
    requires
        extends(a, b),
        fold_held(a, f0),
        f0.is_prefix_of(f1),
        agrees(b, f1, e),
        forall|r: Ref| has(a, r) ==> #[trigger] eval(b, r, e) == eval(a, r, e),
    ensures
        agrees(a, f0, e),
{
    reveal(fold_held);
    assert forall|i: int| 0 <= i < f0.len() implies fold_agrees(a, #[trigger] f0[i], e) by {
        assert(f1[i] == f0[i]);
        assert(fold_agrees(b, f1[i], e));
        assert(has(a, f0[i].value));
        assert(eval(b, f0[i].value, e) == eval(a, f0[i].value, e));
    }
}

proof fn lemma_entry_grows(
    a: Arena,
    b: Arena,
    pins: Seq<(Ref, u64)>,
    f0: Seq<Fold>,
    f1: Seq<Fold>,
    k: usize,
    v: Ref,
)
    requires
        a.wf(),
        b.continues(a),
        fold_held(a.nodes@, f0),
        f0.is_prefix_of(f1),
        entry_ok(a.nodes@, pins, f0, k, v),
    ensures
        entry_ok(b.nodes@, pins, f1, k, v),
{
    let n0 = a.nodes@;
    let n1 = b.nodes@;
    assert(n1[v.idx as int] == n0[v.idx as int]);
    assert(n1[k as int] == n0[k as int]);
    assert forall|e: Env| agrees(n1, f1, e) implies #[trigger] eval(n1, v, e) == pinned(
        n1,
        Ref { idx: k },
        pins,
        e,
    ) by {
        lemma_agrees_shrinks(n0, n1, f0, f1, e);
        assert(eval(n1, v, e) == eval(n0, v, e));
        lemma_pinned_grows(n0, n1, Ref { idx: k }, pins, e);
    }
}

pub proof fn lemma_pins_grow(a: Seq<Node>, b: Seq<Node>, pins: Seq<(Ref, u64)>)
    requires
        pins_hold(a, pins),
        extends(a, b),
    ensures
        pins_hold(b, pins),
{
    reveal(pins_hold);
}

pub proof fn lemma_folds_grow(a: Seq<Node>, b: Seq<Node>, folded: Seq<Fold>)
    requires
        fold_held(a, folded),
        extends(a, b),
    ensures
        fold_held(b, folded),
{
    reveal(fold_held);
}

/// What was remembered stays right as nodes and resolved loads are added.
proof fn lemma_memos_extend(
    a: Arena,
    b: Arena,
    pins: Seq<(Ref, u64)>,
    memo: Map<usize, Ref>,
    dep: Map<usize, bool>,
    f0: Seq<Fold>,
    f1: Seq<Fold>,
    steady: Map<u64, Byte>,
    pe: Image,
)
    requires
        a.wf(),
        b.continues(a),
        fold_held(a.nodes@, f0),
        f0.is_prefix_of(f1),
        memos_ok(a.nodes@, pins, memo, dep, f0, steady, pe),
    ensures
        memos_ok(b.nodes@, pins, memo, dep, f1, steady, pe),
{
    reveal(memos_ok);
    assert(known_by(steady).ok(a.nodes@));
    assert forall|k: usize| #[trigger] memo.dom().contains(k) implies entry_ok(
        b.nodes@,
        pins,
        f1,
        k,
        memo[k],
    ) && entry_settled(b.nodes@, pins, known_by(steady), pe, k, memo[k]) by {
        lemma_entry_grows(a, b, pins, f0, f1, k, memo[k]);
        lemma_entry_settled_grows(a.nodes@, b.nodes@, pins, known_by(steady), pe, k, memo[k]);
    }
    assert forall|k: usize| #[trigger] dep.dom().contains(k) implies k < b.nodes@.len() && dep[k]
        == reaches_pin(b.nodes@, Ref { idx: k }, pins) by {
        lemma_pinned_grows(
            a.nodes@,
            b.nodes@,
            Ref { idx: k },
            pins,
            some_env(),
        );
    }
}

pub proof fn lemma_memos_grow(
    a: Arena,
    b: Arena,
    pins: Seq<(Ref, u64)>,
    memo: Map<usize, Ref>,
    dep: Map<usize, bool>,
    folded: Seq<Fold>,
    steady: Map<u64, Byte>,
    pe: Image,
)
    requires
        a.wf(),
        b.continues(a),
        fold_held(a.nodes@, folded),
        memos_ok(a.nodes@, pins, memo, dep, folded, steady, pe),
    ensures
        memos_ok(b.nodes@, pins, memo, dep, folded, steady, pe),
{
    lemma_memos_extend(a, b, pins, memo, dep, folded, folded, steady, pe);
}

/// The bytes found at an address: what was written there, else what the image holds.
pub open spec fn bytes_at(mem: Map<u64, Byte>, pe: Image, addr: u64, bytes: Seq<Byte>) -> bool {
    forall|i: int|
        0 <= i < bytes.len() ==> byte_found(mem, pe, byte_addr(addr, i), #[trigger] bytes[i])
}

pub open spec fn byte_found(mem: Map<u64, Byte>, pe: Image, a: u64, b: Byte) -> bool {
    if mem.dom().contains(a) {
        b == mem[a]
    } else {
        pe.byte_at(a) matches Some(c) && b == Byte::Const(c)
    }
}

/// Whether a byte of a run is neither written nor in the image.
pub open spec fn byte_missing(mem: Map<u64, Byte>, pe: Image, addr: u64, n: int) -> bool {
    exists|i: int|
        #![trigger byte_addr(addr, i)]
        0 <= i < n && !mem.dom().contains(byte_addr(addr, i)) && pe.byte_at(byte_addr(addr, i)) is None
}

/// Whether `x` is what memory holds: the bytes at the address, joined.
pub open spec fn found_in_memory(
    mem: Map<u64, Byte>,
    pe: Image,
    n0: Seq<Node>,
    addr: u64,
    w: Width,
    n1: Seq<Node>,
    x: Ref,
) -> bool {
    &&& has(n1, x)
    &&& width_of(n1, x) == w
    &&& exists|bytes: Seq<Byte>| #[trigger]
        bytes_at(mem, pe, addr, bytes) && bytes.len() == w.bytes() && (forall|e: Env| #[trigger]
            eval(n1, x, e) == join_bytes(n0, bytes, e)) && (crate::vm::load::all_known(bytes)
            ==> const_of(n1, x) is Some)
}

/// What memory holds at a concrete address, or `None` when a byte is unknown.
pub fn memory_value(state: &State, arena: &mut Arena, pe: &Image, addr: u64, w: Width) -> (r:
    Option<Ref>)
    requires
        old(arena).wf(),
        forall|a: u64| #[trigger]
            state.mem@.dom().contains(a) ==> byte_ok(old(arena).nodes@, state.mem@[a]),
    ensures
        final(arena).grows(*old(arena)),
        match r {
            Some(x) => found_in_memory(
                state.mem@,
                *pe,
                old(arena).nodes@,
                addr,
                w,
                final(arena).nodes@,
                x,
            ),
            None => byte_missing(state.mem@, *pe, addr, w.bytes() as int),
        },
{
    let ghost n0 = arena.nodes@;
    let image = |x: u64| -> (b: Option<u8>)
        ensures
            b == pe.byte_at(x),
        { pe.image_u8(x) };
    let r = state.load_concrete(arena, addr, w, image);
    proof {
        match r {
            Some(x) => {
                let bytes = choose|bytes: Seq<Byte>| #[trigger]
                    crate::vm::load::gathered(state.mem@, image, addr, bytes) && bytes.len()
                        == w.bytes() && (forall|e: Env| #[trigger]
                        eval(arena.nodes@, x, e) == join_bytes(n0, bytes, e)) && (
                    crate::vm::load::all_known(bytes) ==> const_of(arena.nodes@, x) is Some);
                assert forall|i: int| 0 <= i < bytes.len() implies byte_found(
                    state.mem@,
                    *pe,
                    byte_addr(addr, i),
                    #[trigger] bytes[i],
                ) by {
                    assert(crate::vm::load::found_at(
                        state.mem@,
                        image,
                        byte_addr(addr, i),
                        bytes[i],
                    ));
                }
                assert(bytes_at(state.mem@, *pe, addr, bytes));
            },
            None => {
                let i = choose|i: int|
                    #![trigger byte_addr(addr, i)]
                    0 <= i < w.bytes() && !state.mem@.dom().contains(byte_addr(addr, i))
                        && image.ensures((byte_addr(addr, i),), None);
                assert(pe.byte_at(byte_addr(addr, i)) is None);
            },
        }
    }
    r
}

/// Whether a read may be folded to what the file holds. Not where the program may write
/// before the code runs, unless the loader clears it, and not where the loader stores an
/// import's address.
pub open spec fn foldable(pe: Image, addr: u64, w: Width) -> bool {
    (!pe.is_writable(addr) || pe.is_bss(addr)) && !pe.is_loader_bound(addr, w.bytes() as u64)
}

pub fn is_foldable(pe: &Image, addr: u64, w: Width) -> (r: bool)
    ensures
        r == foldable(*pe, addr, w),
{
    (!pe.is_writable(addr) || pe.is_bss(addr)) && !pe.is_loader_bound(addr, w.bytes() as u64)
}

/// Whether bytes are what memory holds where a load was resolved, and join to what it found.
pub open spec fn fold_bytes(
    mem: Map<u64, Byte>,
    pe: Image,
    ns: Seq<Node>,
    f: Fold,
    bytes: Seq<Byte>,
) -> bool {
    &&& bytes_at(mem, pe, f.addr, bytes)
    &&& bytes.len() == f.width.bytes()
    &&& forall|i: int| 0 <= i < bytes.len() ==> byte_ok(ns, #[trigger] bytes[i])
    &&& forall|e: Env| #[trigger] eval(ns, f.value, e) == join_bytes(ns, bytes, e)
}

/// A resolved load is what memory held.
#[verifier::opaque]
pub open spec fn fold_made(mem: Map<u64, Byte>, pe: Image, ns: Seq<Node>, f: Fold) -> bool {
    &&& foldable(pe, f.addr, f.width)
    &&& has(ns, f.value)
    &&& exists|n0: Seq<Node>, n1: Seq<Node>| #[trigger]
        found_in_memory(mem, pe, n0, f.addr, f.width, n1, f.value)
    &&& exists|bytes: Seq<Byte>| #[trigger] fold_bytes(mem, pe, ns, f, bytes)
}

/// The loads resolved since, each of them what memory held.
pub open spec fn folds_made(
    mem: Map<u64, Byte>,
    pe: Image,
    ns: Seq<Node>,
    f0: Seq<Fold>,
    f1: Seq<Fold>,
) -> bool {
    &&& f0.is_prefix_of(f1)
    &&& forall|i: int| f0.len() <= i < f1.len() ==> fold_made(mem, pe, ns, #[trigger] f1[i])
}

/// What a resolved load found stays so while nodes are added.
proof fn lemma_fold_grows(mem: Map<u64, Byte>, pe: Image, a: Arena, b: Arena, f: Fold)
    requires
        a.wf(),
        b.continues(a),
        fold_made(mem, pe, a.nodes@, f),
    ensures
        fold_made(mem, pe, b.nodes@, f),
{
    reveal(fold_made);
    let bytes = choose|bytes: Seq<Byte>| #[trigger] fold_bytes(mem, pe, a.nodes@, f, bytes);
    assert forall|e: Env| #[trigger] eval(b.nodes@, f.value, e) == join_bytes(b.nodes@, bytes, e) by {
        lemma_join_grows(a.nodes@, b.nodes@, bytes, e);
        assert(eval(b.nodes@, f.value, e) == eval(a.nodes@, f.value, e));
    }
    assert forall|i: int| 0 <= i < bytes.len() implies byte_ok(b.nodes@, #[trigger] bytes[i]) by {
        assert(byte_ok(a.nodes@, bytes[i]));
    }
    assert(fold_bytes(mem, pe, b.nodes@, f, bytes));
}

/// What is known of memory when a machine rebuilds a value. What is remembered for other pins
/// is of no use.
pub open spec fn knowledge(m: Emulator) -> Known {
    let now = held_bytes(m.state.mem@, *m.pe);
    if m.memo_pin_count == m.pins@.len() {
        Known { kept: m.subst_memo@.dom(), since: still_held(m.steady@, now), now }
    } else {
        known_by(now)
    }
}

/// `out` is a constant where `r` is one under the pins, and what memory holds where `r` is a
/// load that is resolved. What memory has held since the pins were made counts for what is
/// remembered, and what it holds now for everything else.
pub open spec fn settles_as(m0: Emulator, r: Ref, m1: Emulator, out: Ref) -> bool {
    let k = knowledge(m0);
    &&& entry_settled(m1.arena.nodes@, m0.pins@, k, *m0.pe, r.idx, out)
    &&& settled(m0.arena.nodes@, r, m0.pins@, k, *m0.pe) matches Some(c) ==> const_of(
        m1.arena.nodes@,
        out,
    ) == Some(c)
    &&& m1.steady@ == if m0.pins@.len() == 0 || const_of(m0.arena.nodes@, r) is Some {
        m0.steady@
    } else {
        k.since
    }
}

impl<'a> Emulator<'a> {
    /// Everything remembered was rebuilt against the memory given.
    #[verifier::opaque]
    pub open spec fn remembers(self, k: Known) -> bool {
        &&& k.ok(self.arena.nodes@)
        &&& k.since == self.steady@
        &&& k.now == held_bytes(self.state.mem@, *self.pe)
        &&& forall|i: usize| #[trigger] k.kept.contains(i) ==> self.subst_memo@.dom().contains(i)
        &&& forall|i: usize| #[trigger]
            self.subst_memo@.dom().contains(i) ==> i < self.arena.nodes@.len() && has(
                self.arena.nodes@,
                self.subst_memo@[i],
            ) && entry_settled(
                self.arena.nodes@,
                self.pins@,
                k,
                *self.pe,
                i,
                self.subst_memo@[i],
            )
    }

    /// What rebuilding a value touches: nodes are added and more is remembered.
    pub open spec fn only_rebuilt(self, before: Self) -> bool {
        &&& self.arena.grows(before.arena)
        &&& folds_made(
            before.state.mem@,
            *before.pe,
            self.arena.nodes@,
            before.folded@,
            self.folded@,
        )
        &&& self.same_but_memos(before)
    }

    /// Nothing differs but the arena and what is remembered of it.
    pub open spec fn same_but_memos(self, before: Self) -> bool {
        &&& self.same_setup(before)
        &&& self.state == before.state
        &&& self.events == before.events
        &&& self.trace == before.trace
        &&& self.steps == before.steps
        &&& self.dispatches == before.dispatches
        &&& self.unmapped_loads == before.unmapped_loads
        &&& self.symbolic_loads == before.symbolic_loads
        &&& self.unwind_slot == before.unwind_slot
        &&& self.written_args == before.written_args
    }

    /// The value `r` is pinned to.
    pub(crate) fn pin(&self, r: Ref) -> (v: Option<u64>)
        ensures
            v == pin_of(self.pins@, r),
    {
        let mut i: usize = 0;
        while i < self.pins.len()
            invariant
                i <= self.pins@.len(),
                pin_of(self.pins@, r) == pin_from(self.pins@, r, i as int),
            decreases self.pins@.len() - i,
        {
            if self.pins[i].0 == r {
                return Some(self.pins[i].1);
            }
            i = i + 1;
        }
        None
    }

    /// Whether `r` transitively reaches any pinned node. Cached per node and set of pins.
    fn depends_on_pins(&mut self, r: Ref) -> (b: bool)
        requires
            old(self).wf(),
            old(self).memo_pin_count == old(self).pins@.len(),
            old(self).arena.holds(r),
        ensures
            final(self).wf(),
            b == reaches_pin(old(self).arena.nodes@, r, old(self).pins@),
            final(self).arena == old(self).arena,
            final(self).same_but_memos(*old(self)),
            final(self).folded == old(self).folded,
            final(self).subst_memo == old(self).subst_memo,
            final(self).memo_pin_count == old(self).memo_pin_count,
            final(self).steady == old(self).steady,
        decreases r.idx,
    {
        let ghost m0 = *self;
        let ghost ns = self.arena.nodes@;
        proof {
            reveal(memos_ok);
            assert(crate::ir::expr::ok_at(ns, r.idx as int));
            assert(r == (Ref { idx: r.idx }));
        }
        if let Some(b) = self.pin_dep.get(&r.idx) {
            return *b;
        }
        let out: bool = if self.pin(r).is_some() {
            true
        } else {
            match *self.arena.op(r) {
                Op::Const(_) | Op::InitReg(_) | Op::Opaque(_, _) | Op::Param(_, _) => false,
                Op::Load(a, _) | Op::Un(_, a) | Op::Zext(a) | Op::Sext(a) | Op::Trunc(a) => {
                    self.depends_on_pins(a)
                },
                Op::Bin(_, a, b) => self.depends_on_pins(a) || self.depends_on_pins(b),
                Op::Select(c, a, b) => {
                    self.depends_on_pins(c) || self.depends_on_pins(a) || self.depends_on_pins(b)
                },
            }
        };
        self.pin_dep.insert(r.idx, out);
        out
    }

    /// [`Emulator::substitute`] for one node, with everything below it remembered.
    fn subst_rec(
        &mut self,
        r: Ref,
        Ghost(k): Ghost<Known>,
    ) -> (out: Ref)
        requires
            old(self).wf(),
            old(self).remembers(k),
            old(self).memo_pin_count == old(self).pins@.len(),
            old(self).arena.holds(r),
        ensures
            final(self).wf(),
            final(self).remembers(k),
            final(self).steady == old(self).steady,
            final(self).only_rebuilt(*old(self)),
            final(self).memo_pin_count == old(self).memo_pin_count,
            entry_ok(
                final(self).arena.nodes@,
                old(self).pins@,
                final(self).folded@,
                r.idx,
                out,
            ),
            entry_settled(
                final(self).arena.nodes@,
                old(self).pins@,
                k,
                *old(self).pe,
                r.idx,
                out,
            ),
        decreases r.idx, 1int,
    {
        let ghost m0 = *self;
        let ghost n0 = self.arena.nodes@;
        let ghost pins = self.pins@;
        proof {
            assert(crate::ir::expr::ok_at(n0, r.idx as int));
            assert(r == (Ref { idx: r.idx }));
        }
        if let Some(v) = self.subst_memo.get(&r.idx) {
            proof {
                reveal(memos_ok);
                reveal(Emulator::remembers);
            }
            return *v;
        }
        proof {
            reveal(Emulator::remembers);
            assert(!k.kept.contains(r.idx));
        }
        if !self.depends_on_pins(r) {
            proof {
                reveal_with_fuel(settled, 1);
                assert forall|e: Env| agrees(n0, self.folded@, e) implies #[trigger] eval(n0, r, e)
                    == pinned(n0, Ref { idx: r.idx }, pins, e) by {
                    lemma_unpinned(n0, r, pins, e);
                }
            }
            return self.remember(r, r, Ghost(k));
        }
        if let Some(v) = self.pin(r) {
            let w = self.arena.width(r);
            let ghost m1 = *self;
            let c = self.arena.constant(v, w);
            proof {
                let n1 = self.arena.nodes@;
                crate::ir::lift::lemma_state_grows(self.state, n0, n1);
                lemma_wf_grows(m1, *self);
                lemma_remembers(m1, *self, k);
                reveal_with_fuel(settled, 1);
                lemma_pinned_grows(n0, n1, r, pins, some_env());
                assert forall|e: Env| agrees(n1, self.folded@, e) implies #[trigger] eval(n1, c, e)
                    == pinned(n1, Ref { idx: r.idx }, pins, e) by {}
            }
            return self.remember(r, c, Ghost(k));
        }
        let ghost m1 = *self;
        match *self.arena.op(r) {
            Op::Const(_) | Op::InitReg(_) | Op::Opaque(_, _) | Op::Param(_, _) => {
                proof {
                    reveal_with_fuel(settled, 1);
                }
                self.remember(r, r, Ghost(k))
            },
            Op::Load(addr, gen_at) => self.subst_load(r, addr, gen_at, Ghost(k)),
            Op::Bin(op, x, y) => self.subst_bin(r, op, x, y, Ghost(k)),
            Op::Un(_, x) | Op::Zext(x) | Op::Sext(x) | Op::Trunc(x) => self.subst_one(r, x, Ghost(k)),
            Op::Select(c, x, y) => self.subst_select(r, c, x, y, Ghost(k)),
        }
    }

    fn subst_bin(
        &mut self,
        r: Ref,
        op: crate::ir::value::BinOp,
        x: Ref,
        y: Ref,
        Ghost(k): Ghost<Known>,
    ) -> (out: Ref)
        requires
            old(self).wf(),
            old(self).remembers(k),
            old(self).memo_pin_count == old(self).pins@.len(),
            old(self).arena.holds(r),
            op_of(old(self).arena.nodes@, r) == Op::Bin(op, x, y),
            pin_of(old(self).pins@, r) is None,
            reaches_pin(old(self).arena.nodes@, r, old(self).pins@),
            !k.kept.contains(r.idx),
            x.idx < r.idx,
            y.idx < r.idx,
        ensures
            final(self).wf(),
            final(self).remembers(k),
            final(self).steady == old(self).steady,
            final(self).only_rebuilt(*old(self)),
            final(self).memo_pin_count == old(self).memo_pin_count,
            entry_ok(
                final(self).arena.nodes@,
                old(self).pins@,
                final(self).folded@,
                r.idx,
                out,
            ),
            entry_settled(
                final(self).arena.nodes@,
                old(self).pins@,
                k,
                *old(self).pe,
                r.idx,
                out,
            ),
        decreases r.idx, 0int,
    {
        let ghost m0 = *self;
        let ghost n0 = self.arena.nodes@;
        let ghost pins = self.pins@;
        proof {
            assert(crate::ir::expr::ok_at(n0, r.idx as int));
        }
        let nx = self.subst_rec(x, Ghost(k));
        let ghost m2 = *self;
        let ny = self.subst_rec(y, Ghost(k));
        let ghost m3 = *self;
        proof {
            lemma_rebuilt_twice(m0, m2, m3);
            lemma_entry_grows(
                m2.arena,
                m3.arena,
                pins,
                m2.folded@,
                m3.folded@,
                x.idx,
                nx,
            );
            assert(m3.arena.nodes@[r.idx as int] == n0[r.idx as int]);
            assert(crate::ir::expr::ok_at(m3.arena.nodes@, r.idx as int));
        }
        let out = if nx == x && ny == y {
            r
        } else {
            self.arena.bin(op, nx, ny)
        };
        proof {
            self.lemma_rebuilt(m3);
            lemma_rebuilt_twice(m0, m3, *self);
            let n1 = self.arena.nodes@;
            lemma_entry_grows(m3.arena, self.arena, pins, m3.folded@, self.folded@, x.idx, nx);
            lemma_entry_grows(m3.arena, self.arena, pins, m3.folded@, self.folded@, y.idx, ny);
            assert(n1[r.idx as int] == n0[r.idx as int]);
            assert(x == (Ref { idx: x.idx }) && y == (Ref { idx: y.idx }));
            assert forall|e: Env| agrees(n1, self.folded@, e) implies #[trigger] eval(
                n1,
                out,
                e,
            ) == pinned(n1, Ref { idx: r.idx }, pins, e) by {
                assert(eval(n1, nx, e) == pinned(n1, x, pins, e));
                assert(eval(n1, ny, e) == pinned(n1, y, pins, e));
            }
            lemma_remembers(m3, *self, k);
            self.lemma_operand(m2, x, nx, k);
            self.lemma_operand(m3, y, ny, k);
            lemma_pinned_grows(n0, n1, r, pins, some_env());
            assert(entry_settled(n1, pins, k, *self.pe, r.idx, out)) by {
                reveal_with_fuel(settled, 1);
                if settled(n1, r, pins, k, *self.pe) is Some {
                    assert(nx != x || ny != y);
                    assert(crate::ir::simplify::folds(m3.arena.nodes@, n1, op, nx, ny, out));
                }
            }
        }
        self.remember(r, out, Ghost(k))
    }

    fn subst_one(
        &mut self,
        r: Ref,
        x: Ref,
        Ghost(k): Ghost<Known>,
    ) -> (out: Ref)
        requires
            old(self).wf(),
            old(self).remembers(k),
            old(self).memo_pin_count == old(self).pins@.len(),
            old(self).arena.holds(r),
            unary_on(op_of(old(self).arena.nodes@, r), x),
            pin_of(old(self).pins@, r) is None,
            reaches_pin(old(self).arena.nodes@, r, old(self).pins@),
            !k.kept.contains(r.idx),
            x.idx < r.idx,
        ensures
            final(self).wf(),
            final(self).remembers(k),
            final(self).steady == old(self).steady,
            final(self).only_rebuilt(*old(self)),
            final(self).memo_pin_count == old(self).memo_pin_count,
            entry_ok(
                final(self).arena.nodes@,
                old(self).pins@,
                final(self).folded@,
                r.idx,
                out,
            ),
            entry_settled(
                final(self).arena.nodes@,
                old(self).pins@,
                k,
                *old(self).pe,
                r.idx,
                out,
            ),
        decreases r.idx, 0int,
    {
        let ghost m0 = *self;
        let ghost n0 = self.arena.nodes@;
        let ghost pins = self.pins@;
        proof {
            assert(crate::ir::expr::ok_at(n0, r.idx as int));
        }
        let nx = self.subst_rec(x, Ghost(k));
        let ghost m2 = *self;
        let ghost n2 = self.arena.nodes@;
        proof {
            assert(n2[r.idx as int] == n0[r.idx as int]);
            assert(crate::ir::expr::ok_at(n2, r.idx as int));
        }
        let w = self.arena.width(r);
        let out = if nx == x {
            r
        } else {
            match *self.arena.op(r) {
                Op::Un(op, _) => self.arena.un(op, nx),
                Op::Zext(_) => self.arena.zext(nx, w),
                Op::Sext(_) => self.arena.sext(nx, w),
                _ => self.arena.trunc(nx, w),
            }
        };
        proof {
            self.lemma_rebuilt(m2);
            lemma_rebuilt_twice(m0, m2, *self);
            let n1 = self.arena.nodes@;
            lemma_entry_grows(m2.arena, self.arena, pins, m2.folded@, self.folded@, x.idx, nx);
            assert(n1[r.idx as int] == n0[r.idx as int]);
            assert(x == (Ref { idx: x.idx }));
            crate::ir::expr::lemma_fits(n1, nx);
            assert forall|e: Env| agrees(n1, self.folded@, e) implies #[trigger] eval(n1, out, e)
                == pinned(n1, Ref { idx: r.idx }, pins, e) by {
                assert(eval(n1, nx, e) == pinned(n1, x, pins, e));
                crate::ir::fold::lemma_mask(eval(n1, nx, e), w.mask());
            }
            lemma_remembers(m2, *self, k);
            self.lemma_operand(m2, x, nx, k);
            lemma_pinned_grows(n0, n1, r, pins, some_env());
            assert(entry_settled(n1, pins, k, *self.pe, r.idx, out)) by {
                reveal_with_fuel(settled, 1);
                if settled(n1, r, pins, k, *self.pe) is Some {
                    assert(nx != x);
                    lemma_constant_value(n1, nx, some_env());
                    lemma_constant_value(n1, out, some_env());
                    crate::ir::fold::lemma_mask(eval(n1, nx, some_env()), w.mask());
                }
            }
        }
        self.remember(r, out, Ghost(k))
    }

    fn subst_select(
        &mut self,
        r: Ref,
        c: Ref,
        x: Ref,
        y: Ref,
        Ghost(k): Ghost<Known>,
    ) -> (out: Ref)
        requires
            old(self).wf(),
            old(self).remembers(k),
            old(self).memo_pin_count == old(self).pins@.len(),
            old(self).arena.holds(r),
            op_of(old(self).arena.nodes@, r) == Op::Select(c, x, y),
            pin_of(old(self).pins@, r) is None,
            reaches_pin(old(self).arena.nodes@, r, old(self).pins@),
            !k.kept.contains(r.idx),
            c.idx < r.idx,
            x.idx < r.idx,
            y.idx < r.idx,
        ensures
            final(self).wf(),
            final(self).remembers(k),
            final(self).steady == old(self).steady,
            final(self).only_rebuilt(*old(self)),
            final(self).memo_pin_count == old(self).memo_pin_count,
            entry_ok(
                final(self).arena.nodes@,
                old(self).pins@,
                final(self).folded@,
                r.idx,
                out,
            ),
            entry_settled(
                final(self).arena.nodes@,
                old(self).pins@,
                k,
                *old(self).pe,
                r.idx,
                out,
            ),
        decreases r.idx, 0int,
    {
        let ghost m0 = *self;
        let ghost n0 = self.arena.nodes@;
        let ghost pins = self.pins@;
        proof {
            assert(crate::ir::expr::ok_at(n0, r.idx as int));
        }
        let nc = self.subst_rec(c, Ghost(k));
        let ghost m1 = *self;
        let nx = self.subst_rec(x, Ghost(k));
        let ghost m2 = *self;
        let ny = self.subst_rec(y, Ghost(k));
        let ghost m3 = *self;
        proof {
            lemma_rebuilt_twice(m0, m1, m2);
            lemma_rebuilt_twice(m0, m2, m3);
            lemma_entry_grows(m1.arena, m2.arena, pins, m1.folded@, m2.folded@, c.idx, nc);
            lemma_entry_grows(m2.arena, m3.arena, pins, m2.folded@, m3.folded@, c.idx, nc);
            lemma_entry_grows(m2.arena, m3.arena, pins, m2.folded@, m3.folded@, x.idx, nx);
            assert(m3.arena.nodes@[r.idx as int] == n0[r.idx as int]);
            assert(crate::ir::expr::ok_at(m3.arena.nodes@, r.idx as int));
        }
        let out = if nc == c && nx == x && ny == y {
            r
        } else {
            self.arena.select_at_width(nc, nx, ny)
        };
        proof {
            self.lemma_rebuilt(m3);
            lemma_rebuilt_twice(m0, m3, *self);
            let n1 = self.arena.nodes@;
            lemma_entry_grows(m3.arena, self.arena, pins, m3.folded@, self.folded@, c.idx, nc);
            lemma_entry_grows(m3.arena, self.arena, pins, m3.folded@, self.folded@, x.idx, nx);
            lemma_entry_grows(m3.arena, self.arena, pins, m3.folded@, self.folded@, y.idx, ny);
            assert(n1[r.idx as int] == n0[r.idx as int]);
            assert(c == (Ref { idx: c.idx }) && x == (Ref { idx: x.idx }) && y == (Ref {
                idx: y.idx,
            }));
            assert forall|e: Env| agrees(n1, self.folded@, e) implies #[trigger] eval(n1, out, e)
                == pinned(n1, Ref { idx: r.idx }, pins, e) by {
                assert(eval(n1, nc, e) == pinned(n1, c, pins, e));
                assert(eval(n1, nx, e) == pinned(n1, x, pins, e));
                assert(eval(n1, ny, e) == pinned(n1, y, pins, e));
                assert(eval(n1, nc, e) == eval(m3.arena.nodes@, nc, e));
                assert(eval(n1, nx, e) == eval(m3.arena.nodes@, nx, e));
                assert(eval(n1, ny, e) == eval(m3.arena.nodes@, ny, e));
            }
            lemma_remembers(m3, *self, k);
            self.lemma_operand(m1, c, nc, k);
            self.lemma_operand(m2, x, nx, k);
            self.lemma_operand(m3, y, ny, k);
            lemma_pinned_grows(n0, n1, r, pins, some_env());
            assert(entry_settled(n1, pins, k, *self.pe, r.idx, out)) by {
                reveal_with_fuel(settled, 1);
                if settled(n1, r, pins, k, *self.pe) is Some {
                    lemma_constant_value(n1, nc, some_env());
                    if const_of(n1, nc)->0 != 0 {
                        lemma_constant_value(n1, nx, some_env());
                    } else {
                        lemma_constant_value(n1, ny, some_env());
                    }
                    assert(nc != c || nx != x || ny != y);
                    lemma_constant_value(n1, out, some_env());
                    crate::ir::expr::lemma_fits(n1, nx);
                    crate::ir::fold::lemma_mask(eval(n1, nx, some_env()), width_of(n1, r).mask());
                }
            }
        }
        self.remember(r, out, Ghost(k))
    }

    /// A load whose address may have become concrete is resolved against memory again.
    /// This records no event: rebuilding may be done many times over the same node.
    fn subst_load(
        &mut self,
        r: Ref,
        addr: Ref,
        gen_at: u32,
        Ghost(k): Ghost<Known>,
    ) -> (out: Ref)
        requires
            old(self).wf(),
            old(self).remembers(k),
            old(self).memo_pin_count == old(self).pins@.len(),
            old(self).arena.holds(r),
            op_of(old(self).arena.nodes@, r) == Op::Load(addr, gen_at),
            pin_of(old(self).pins@, r) is None,
            reaches_pin(old(self).arena.nodes@, r, old(self).pins@),
            !k.kept.contains(r.idx),
            addr.idx < r.idx,
        ensures
            final(self).wf(),
            final(self).remembers(k),
            final(self).steady == old(self).steady,
            final(self).only_rebuilt(*old(self)),
            final(self).memo_pin_count == old(self).memo_pin_count,
            entry_ok(
                final(self).arena.nodes@,
                old(self).pins@,
                final(self).folded@,
                r.idx,
                out,
            ),
            entry_settled(
                final(self).arena.nodes@,
                old(self).pins@,
                k,
                *old(self).pe,
                r.idx,
                out,
            ),
        decreases r.idx, 0int,
    {
        let ghost m0 = *self;
        let ghost n0 = self.arena.nodes@;
        let ghost pins = self.pins@;
        proof {
            assert(crate::ir::expr::ok_at(n0, r.idx as int));
        }
        let a = self.subst_rec(addr, Ghost(k));
        let ghost m1 = *self;
        let ghost n1 = self.arena.nodes@;
        proof {
            assert(n1[r.idx as int] == n0[r.idx as int]);
            assert(addr == (Ref { idx: addr.idx }));
        }
        if a == addr {
            proof {
                assert forall|e: Env| agrees(n1, self.folded@, e) implies #[trigger] eval(n1, r, e)
                    == pinned(n1, Ref { idx: r.idx }, pins, e) by {
                    assert(eval(n1, a, e) == pinned(n1, addr, pins, e));
                }
                reveal_with_fuel(settled, 1);
                self.lemma_operand(m1, addr, a, k);
                lemma_pinned_grows(n0, n1, r, pins, some_env());
            }
            return self.remember(r, r, Ghost(k));
        }
        let w = self.arena.width(r);
        if let Some(c) = self.arena.as_const(a) {
            if is_foldable(self.pe, c, w) {
                if let Some(v) = memory_value(&self.state, &mut self.arena, self.pe, c, w) {
                    let ghost f = Fold { addr: c, generation: gen_at, width: w, value: v };
                    let ghost m2 = *self;
                    self.folded = Ghost(self.folded@.push(f));
                    proof {
                        let n2 = self.arena.nodes@;
                        m2.lemma_rebuilt(m1);
                        assert(fold_held(n2, self.folded@)) by {
                            reveal(fold_held);
                        }
                        lemma_memos_extend(
                            m2.arena,
                            self.arena,
                            pins,
                            self.subst_memo@,
                            self.pin_dep@,
                            m2.folded@,
                            self.folded@,
                            self.steady@,
                            *self.pe,
                        );
                        lemma_remembers(m1, *self, k);
                        self.lemma_operand(m1, addr, a, k);
                        lemma_pinned_grows(n0, n2, r, pins, some_env());
                        self.lemma_load_settled(m1, r, addr, a, c, w, v, k);
                        assert(found_in_memory(
                            m1.state.mem@,
                            *m1.pe,
                            n1,
                            f.addr,
                            f.width,
                            n2,
                            f.value,
                        ));
                        let bytes = choose|bytes: Seq<Byte>| #[trigger]
                            bytes_at(m1.state.mem@, *m1.pe, f.addr, bytes) && bytes.len()
                                == f.width.bytes() && (forall|e: Env| #[trigger]
                                eval(n2, f.value, e) == join_bytes(n1, bytes, e));
                        assert forall|i: int| 0 <= i < bytes.len() implies byte_ok(
                            n1,
                            #[trigger] bytes[i],
                        ) by {
                            assert(byte_found(
                                m1.state.mem@,
                                *m1.pe,
                                byte_addr(f.addr, i),
                                bytes[i],
                            ));
                        }
                        assert forall|e: Env| #[trigger] eval(n2, f.value, e) == join_bytes(
                            n2,
                            bytes,
                            e,
                        ) by {
                            lemma_join_grows(n1, n2, bytes, e);
                        }
                        assert forall|i: int| 0 <= i < bytes.len() implies byte_ok(
                            n2,
                            #[trigger] bytes[i],
                        ) by {
                            assert(byte_ok(n1, bytes[i]));
                        }
                        assert(fold_bytes(m1.state.mem@, *m1.pe, n2, f, bytes));
                        assert(fold_made(m1.state.mem@, *m1.pe, n2, f)) by {
                            reveal(fold_made);
                        }
                        assert(self.folded@.take(m1.folded@.len() as int) =~= m1.folded@);
                        lemma_rebuilt_twice(m0, m1, *self);
                        lemma_entry_grows(m1.arena, self.arena, pins, m1.folded@, self.folded@, addr.idx, a);
                        assert(n2[r.idx as int] == n0[r.idx as int]);
                        assert forall|e: Env| agrees(n2, self.folded@, e) implies #[trigger] eval(
                            n2,
                            v,
                            e,
                        ) == pinned(n2, Ref { idx: r.idx }, pins, e) by {
                            assert(self.folded@[m2.folded@.len() as int] == f);
                            assert(fold_agrees(n2, f, e));
                            assert(eval(n2, a, e) == pinned(n2, addr, pins, e));
                            assert(eval(n2, a, e) == eval(n1, a, e));
                        }
                    }
                    return v;
                }
            }
        }
        let ghost m2 = *self;
        proof {
            m2.lemma_rebuilt(m1);
        }
        let out = self.arena.load_at(a, w, gen_at);
        proof {
            let n2 = self.arena.nodes@;
            self.lemma_rebuilt(m2);
            lemma_rebuilt_twice(m0, m1, m2);
            lemma_rebuilt_twice(m0, m2, *self);
            lemma_remembers(m1, *self, k);
            self.lemma_operand(m1, addr, a, k);
            lemma_pinned_grows(n0, n2, r, pins, some_env());
            assert(entry_settled(n2, pins, k, *self.pe, r.idx, out)) by {
                reveal_with_fuel(settled, 1);
                if let Some(c) = settled(n2, addr, pins, k, *self.pe) {
                    reveal(Emulator::remembers);
                    if foldable(*self.pe, c, w) {
                        assert(byte_missing(self.state.mem@, *self.pe, c, w.bytes() as int));
                        assert(bytes_from(k.now, c, w) is None);
                    }
                }
            }
            lemma_entry_grows(m1.arena, m2.arena, pins, m1.folded@, m2.folded@, addr.idx, a);
            lemma_entry_grows(m2.arena, self.arena, pins, m2.folded@, self.folded@, addr.idx, a);
            assert(n2[r.idx as int] == n0[r.idx as int]);
            assert forall|e: Env| agrees(n2, self.folded@, e) implies #[trigger] eval(n2, out, e)
                == pinned(n2, Ref { idx: r.idx }, pins, e) by {
                assert(eval(n2, a, e) == pinned(n2, addr, pins, e));
                assert(eval(n2, a, e) == eval(m2.arena.nodes@, a, e));
            }
        }
        self.remember(r, out, Ghost(k))
    }

    /// An operand stays settled while nodes are added, and one that is a constant and reaches a
    /// pin was replaced.
    proof fn lemma_operand(self, before: Self, x: Ref, nx: Ref, k: Known)
        requires
            self.wf(),
            before.wf(),
            before.remembers(k),
            self.arena.continues(before.arena),
            self.pins@ == before.pins@,
            self.pe == before.pe,
            before.arena.holds(x),
            before.arena.holds(nx),
            entry_settled(before.arena.nodes@, self.pins@, k, *self.pe, x.idx, nx),
        ensures
            entry_settled(self.arena.nodes@, self.pins@, k, *self.pe, x.idx, nx),
            settled(self.arena.nodes@, x, self.pins@, k, *self.pe) matches Some(c) ==> const_of(
                self.arena.nodes@,
                nx,
            ) == Some(c),
            settled(self.arena.nodes@, x, self.pins@, k, *self.pe) is Some && nx == x ==> !reaches_pin(
                self.arena.nodes@,
                x,
                self.pins@,
            ),
    {
        let n0 = before.arena.nodes@;
        let n1 = self.arena.nodes@;
        assert(x == (Ref { idx: x.idx }));
        assert(k.ok(n0)) by {
            reveal(Emulator::remembers);
        }
        lemma_entry_settled_grows(n0, n1, self.pins@, k, *self.pe, x.idx, nx);
        if reaches_pin(n1, x, self.pins@) {
            lemma_reaching_is_symbolic(n1, x, self.pins@);
        }
    }

    /// A load that memory answers is settled by what memory holds.
    proof fn lemma_load_settled(
        self,
        before: Self,
        r: Ref,
        addr: Ref,
        a: Ref,
        c: u64,
        w: Width,
        v: Ref,
        k: Known,
    )
        requires
            self.wf(),
            before.wf(),
            before.remembers(k),
            self.arena.continues(before.arena),
            self.arena.holds(r),
            self.arena.holds(a),
            width_of(self.arena.nodes@, r) == w,
            !k.kept.contains(r.idx),
            op_of(self.arena.nodes@, r) matches Op::Load(x, _) && x == addr,
            pin_of(self.pins@, r) is None,
            const_of(self.arena.nodes@, a) == Some(c),
            entry_settled(self.arena.nodes@, self.pins@, k, *self.pe, addr.idx, a),
            found_in_memory(
                before.state.mem@,
                *before.pe,
                before.arena.nodes@,
                c,
                w,
                self.arena.nodes@,
                v,
            ),
        ensures
            entry_settled(self.arena.nodes@, self.pins@, k, *self.pe, r.idx, v),
    {
        let n0 = before.arena.nodes@;
        let n1 = self.arena.nodes@;
        let pe = *self.pe;
        assert(r == (Ref { idx: r.idx }) && addr == (Ref { idx: addr.idx }));
        let found = choose|bytes: Seq<Byte>| #[trigger]
            bytes_at(before.state.mem@, *before.pe, c, bytes) && bytes.len() == w.bytes() && (forall|
                e: Env,
            | #[trigger]
                eval(n1, v, e) == join_bytes(n0, bytes, e)) && (crate::vm::load::all_known(bytes)
                ==> const_of(n1, v) is Some);
        reveal(Emulator::remembers);
        reveal_with_fuel(settled, 1);
        if settled(n1, addr, self.pins@, k, pe) is Some {
            if let Some(bytes) = bytes_from(k.now, c, w) {
                assert forall|i: int| 0 <= i < bytes.len() implies bytes[i] == found[i] && byte_ok(
                    n0,
                    #[trigger] found[i],
                ) by {
                    assert(byte_found(before.state.mem@, *before.pe, byte_addr(c, i), found[i]));
                    assert(k.now.dom().contains(byte_addr(c, i)));
                }
                assert(bytes =~= found);
                assert forall|e: Env| #[trigger] eval(n1, v, e) == join_bytes(n1, bytes, e) by {
                    lemma_join_grows(n0, n1, bytes, e);
                }
                if crate::vm::load::all_known(bytes) {
                    lemma_constant_value(n1, v, some_env());
                }
            }
        }
    }

    /// A machine whose arena alone grew is still well-formed.
    proof fn lemma_rebuilt(self, before: Self)
        requires
            before.wf(),
            self.arena.grows(before.arena),
            self.same_but_memos(before),
            self.folded == before.folded,
            self.memo_pin_count == before.memo_pin_count,
            self.subst_memo == before.subst_memo,
            self.pin_dep == before.pin_dep,
            self.steady == before.steady,
        ensures
            self.wf(),
    {
        crate::ir::lift::lemma_state_grows(
            before.state,
            before.arena.nodes@,
            self.arena.nodes@,
        );
        lemma_wf_grows(before, self);
    }

    fn remember(&mut self, r: Ref, out: Ref, Ghost(k): Ghost<Known>) -> (v: Ref)
        requires
            old(self).wf(),
            old(self).remembers(k),
            entry_settled(
                old(self).arena.nodes@,
                old(self).pins@,
                k,
                *old(self).pe,
                r.idx,
                out,
            ),
            old(self).memo_pin_count == old(self).pins@.len(),
            entry_ok(
                old(self).arena.nodes@,
                old(self).pins@,
                old(self).folded@,
                r.idx,
                out,
            ),
        ensures
            v == out,
            final(self).wf(),
            final(self).remembers(k),
            final(self).steady == old(self).steady,
            final(self).arena == old(self).arena,
            final(self).same_but_memos(*old(self)),
            final(self).folded == old(self).folded,
            final(self).memo_pin_count == old(self).memo_pin_count,
    {
        let ghost ns = self.arena.nodes@;
        self.subst_memo.insert(r.idx, out);
        proof {
            reveal(memos_ok);
            reveal(Emulator::remembers);
            lemma_entry_settled_less(ns, self.pins@, self.steady@, k, *self.pe, r.idx, out);
        }
        out
    }

    /// Rebuild `r` with every pinned node replaced by its concrete value, and with the
    /// loads that this makes concrete resolved against memory.
    ///
    /// Pins are discovered after expressions become symbolic, so this runs where a value
    /// is used. What was rebuilt is kept for the current set of pins.
    pub fn substitute(&mut self, r: Ref) -> (out: Ref)
        requires
            old(self).wf(),
            old(self).arena.holds(r),
        ensures
            final(self).wf(),
            final(self).only_rebuilt(*old(self)),
            entry_ok(
                final(self).arena.nodes@,
                old(self).pins@,
                final(self).folded@,
                r.idx,
                out,
            ),
            old(self).pins@.len() == 0 || const_of(old(self).arena.nodes@, r) is Some ==> out == r,
            settles_as(*old(self), r, *final(self), out),
    {
        let ghost m0 = *self;
        let ghost n0 = self.arena.nodes@;
        let ghost k = knowledge(m0);
        proof {
            assert(r == (Ref { idx: r.idx }));
            reveal_with_fuel(settled, 1);
        }
        if self.pins.len() == 0 {
            proof {
                lemma_no_pins(n0, r, self.pins@);
                assert forall|e: Env| agrees(n0, self.folded@, e) implies #[trigger] eval(n0, r, e)
                    == pinned(n0, Ref { idx: r.idx }, self.pins@, e) by {
                    lemma_no_pins(n0, r, self.pins@);
                    lemma_unpinned(n0, r, self.pins@, e);
                }
            }
            return r;
        }
        if self.arena.is_const(r) {
            proof {
                assert(crate::ir::expr::ok_at(n0, r.idx as int));
                lemma_constant_unpinned(n0, r, self.pins@);
                assert forall|e: Env| agrees(n0, self.folded@, e) implies #[trigger] eval(n0, r, e)
                    == pinned(n0, Ref { idx: r.idx }, self.pins@, e) by {
                    lemma_unpinned(n0, r, self.pins@, e);
                }
            }
            return r;
        }
        if self.pins.len() != self.memo_pin_count {
            self.subst_memo.clear();
            self.pin_dep.clear();
            self.memo_pin_count = self.pins.len();
        }
        self.steady = Ghost(k.since);
        proof {
            lemma_knowledge(m0, *self);
        }
        let out = self.subst_rec(r, Ghost(k));
        proof {
            assert(k.ok(n0)) by {
                reveal(Emulator::remembers);
            }
            lemma_settled_grows(n0, self.arena.nodes@, r, m0.pins@, k, *m0.pe);
        }
        out
    }
}

/// What is remembered holds against what is known of memory.
proof fn lemma_knowledge(m0: Emulator, m1: Emulator)
    requires
        m0.wf(),
        m1.memo_pin_count == m1.pins@.len(),
        m1.arena == m0.arena,
        m1.same_but_memos(m0),
        m1.folded == m0.folded,
        m1.steady@ == knowledge(m0).since,
        if m0.memo_pin_count == m0.pins@.len() {
            m1.subst_memo == m0.subst_memo && m1.pin_dep == m0.pin_dep
        } else {
            m1.subst_memo@ == Map::<usize, Ref>::empty() && m1.pin_dep@ == Map::<
                usize,
                bool,
            >::empty()
        },
    ensures
        m1.wf(),
        m1.remembers(knowledge(m0)),
{
    let ns = m0.arena.nodes@;
    let k = knowledge(m0);
    reveal(memos_ok);
    reveal(Emulator::remembers);
    assert(k.ok(ns)) by {
        assert forall|a: u64| #[trigger] k.now.dom().contains(a) implies byte_ok(ns, k.now[a]) by {
            if m0.state.mem@.dom().contains(a) {
                assert(byte_ok(ns, m0.state.mem@[a]));
            }
        }
    }
    assert forall|a: u64| #[trigger] m1.steady@.dom().contains(a) implies byte_ok(ns, m1.steady@[a]) by {
        assert(k.now.dom().contains(a));
    }
    assert forall|i: usize| #[trigger] m1.subst_memo@.dom().contains(i) implies entry_settled(
        ns,
        m1.pins@,
        known_by(m1.steady@),
        *m1.pe,
        i,
        m1.subst_memo@[i],
    ) && entry_settled(ns, m1.pins@, k, *m1.pe, i, m1.subst_memo@[i]) by {
        assert(m0.memo_pin_count == m0.pins@.len());
        lemma_entry_settled_less(
            ns,
            m1.pins@,
            m1.steady@,
            known_by(m0.steady@),
            *m1.pe,
            i,
            m1.subst_memo@[i],
        );
        lemma_kept_settled(ns, Ref { idx: i }, m1.pins@, k, *m1.pe);
    }
}

/// For what is remembered only what memory has held since counts.
proof fn lemma_kept_settled(ns: Seq<Node>, r: Ref, pins: Seq<(Ref, u64)>, k: Known, pe: Image)
    requires
        k.kept.contains(r.idx),
    ensures
        settled(ns, r, pins, k, pe) == settled(ns, r, pins, known_by(k.since), pe),
        resolved(ns, r, pins, k, pe) == resolved(ns, r, pins, known_by(k.since), pe),
{
    reveal_with_fuel(settled, 1);
    assert(k.at(r) == known_by(k.since));
    assert(known_by(k.since).at(r) == known_by(k.since));
}

/// What is remembered still holds while nodes are added.
proof fn lemma_remembers(a: Emulator, b: Emulator, k: Known)
    requires
        a.wf(),
        a.remembers(k),
        b.arena.continues(a.arena),
        b.state.mem@ == a.state.mem@,
        b.pe == a.pe,
        b.pins@ == a.pins@,
        b.subst_memo@ == a.subst_memo@,
        b.steady@ == a.steady@,
    ensures
        b.remembers(k),
{
    reveal(Emulator::remembers);
    let n0 = a.arena.nodes@;
    let n1 = b.arena.nodes@;
    assert forall|i: usize| #[trigger] b.subst_memo@.dom().contains(i) implies entry_settled(
        n1,
        b.pins@,
        k,
        *b.pe,
        i,
        b.subst_memo@[i],
    ) by {
        lemma_entry_settled_grows(n0, n1, b.pins@, k, *b.pe, i, b.subst_memo@[i]);
    }
    assert(k.ok(n1)) by {
        assert forall|x: u64| #[trigger] k.now.dom().contains(x) implies byte_ok(n1, k.now[x]) by {
            assert(byte_ok(n0, k.now[x]));
        }
    }
}

pub proof fn lemma_rebuilt_twice(a: Emulator, b: Emulator, c: Emulator)
    requires
        b.only_rebuilt(a),
        c.only_rebuilt(b),
    ensures
        c.only_rebuilt(a),
{
    assert forall|i: int| a.folded@.len() <= i < c.folded@.len() implies fold_made(
        a.state.mem@,
        *a.pe,
        c.arena.nodes@,
        #[trigger] c.folded@[i],
    ) by {
        if i < b.folded@.len() {
            assert(c.folded@[i] == b.folded@[i]);
            lemma_fold_grows(a.state.mem@, *a.pe, b.arena, c.arena, b.folded@[i]);
        }
    }
    assert(a.folded@.is_prefix_of(c.folded@)) by {
        assert(c.folded@.take(a.folded@.len() as int) =~= a.folded@);
    }
    lemma_continues_twice(a.arena, b.arena, c.arena);
}

pub proof fn lemma_continues_twice(a: Arena, b: Arena, c: Arena)
    requires
        b.continues(a),
        c.continues(b),
    ensures
        c.continues(a),
{
    assert forall|r: Ref, e: Env| has(a.nodes@, r) implies #[trigger] eval(c.nodes@, r, e) == eval(
        a.nodes@,
        r,
        e,
    ) by {
        assert(eval(c.nodes@, r, e) == eval(b.nodes@, r, e));
    }
    assert forall|r: Ref| has(a.nodes@, r) implies #[trigger] crate::ir::expr::known_zero_bits(
        c.nodes@,
        r,
    ) == crate::ir::expr::known_zero_bits(a.nodes@, r) by {
        assert(crate::ir::expr::known_zero_bits(c.nodes@, r) == crate::ir::expr::known_zero_bits(
            b.nodes@,
            r,
        ));
    }
}

proof fn lemma_pin_member(pins: Seq<(Ref, u64)>, r: Ref, k: int)
    requires
        0 <= k,
        pin_from(pins, r, k) is Some,
    ensures
        exists|i: int| 0 <= i < pins.len() && (#[trigger] pins[i]).0 == r,
    decreases pins.len() - k,
{
    if k < pins.len() && pins[k].0 != r {
        lemma_pin_member(pins, r, k + 1);
    }
}

pub proof fn lemma_constant_unpinned(ns: Seq<Node>, r: Ref, pins: Seq<(Ref, u64)>)
    requires
        pins_hold(ns, pins),
        const_of(ns, r) is Some,
    ensures
        !reaches_pin(ns, r, pins),
{
    reveal(pins_hold);
    if pin_of(pins, r) is Some {
        lemma_pin_member(pins, r, 0);
    }
}

proof fn lemma_no_pins(ns: Seq<Node>, r: Ref, pins: Seq<(Ref, u64)>)
    requires
        pins.len() == 0,
    ensures
        !reaches_pin(ns, r, pins),
    decreases r.idx,
{
    if r.idx < ns.len() && operands_before(ns[r.idx as int].op, r.idx as int) {
        match ns[r.idx as int].op {
            Op::Load(a, _) | Op::Un(_, a) | Op::Zext(a) | Op::Sext(a) | Op::Trunc(a) => {
                lemma_no_pins(ns, a, pins);
            },
            Op::Bin(_, a, b) => {
                lemma_no_pins(ns, a, pins);
                lemma_no_pins(ns, b, pins);
            },
            Op::Select(c, a, b) => {
                lemma_no_pins(ns, c, pins);
                lemma_no_pins(ns, a, pins);
                lemma_no_pins(ns, b, pins);
            },
            _ => {},
        }
    }
}

} // verus!
