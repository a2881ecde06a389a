//! Which values are constants once their leaves are pinned, and what they are.

use crate::ir::expr::{
    const_of, eval, extends, has, nodes_ok, ok_at, op_of, operands_before, some_env, width_of, Env,
    Node, Op, Ref,
};
use crate::ir::fold::{bin_fold, lemma_mask, sign_extend_spec, un_val};
use crate::ir::subst::{
    foldable, lemma_constant_unpinned, lemma_pinned_grows, pin_of, pins_hold, reaches_pin,
};
use crate::ir::value::Width;
use crate::vm::image::Image;
use crate::vm::load::all_known;
use crate::vm::state::{byte_addr, byte_ok, byte_value, join_bytes, Byte};
use vstd::prelude::*;

verus! {

/// What memory holds: the bytes written, and those of the image where nothing was written.
pub open spec fn held_bytes(mem: Map<u64, Byte>, pe: Image) -> Map<u64, Byte> {
    Map::new(
        |a: u64| mem.dom().contains(a) || pe.byte_at(a) is Some,
        |a: u64|
            if mem.dom().contains(a) {
                mem[a]
            } else {
                Byte::Const(pe.byte_at(a)->0)
            },
    )
}

/// The bytes of one memory that another holds as well.
pub open spec fn still_held(since: Map<u64, Byte>, now: Map<u64, Byte>) -> Map<u64, Byte> {
    Map::new(
        |a: u64| since.dom().contains(a) && now.dom().contains(a) && since[a] == now[a],
        |a: u64| since[a],
    )
}

/// The memory values are rebuilt against. What was remembered of the nodes in `kept` comes
/// from earlier; `since` is what memory has held ever since.
pub ghost struct Known {
    pub kept: Set<usize>,
    pub since: Map<u64, Byte>,
    pub now: Map<u64, Byte>,
}

impl Known {
    /// The memory that counts for a node and what it is computed from.
    pub open spec fn at(self, r: Ref) -> Known {
        if self.kept.contains(r.idx) {
            known_by(self.since)
        } else {
            self
        }
    }

    /// What memory has held ever since it holds now, and all of it refers to nodes of the
    /// arena.
    pub open spec fn ok(self, ns: Seq<Node>) -> bool {
        &&& forall|a: u64| #[trigger]
            self.since.dom().contains(a) ==> self.now.dom().contains(a) && self.now[a] == self.since[a]
        &&& forall|a: u64| #[trigger] self.now.dom().contains(a) ==> byte_ok(ns, self.now[a])
    }
}

/// Nothing is remembered from earlier.
pub open spec fn known_by(now: Map<u64, Byte>) -> Known {
    Known { kept: Set::empty(), since: now, now }
}

/// The bytes at an address, where all of them are known.
pub open spec fn bytes_from(mem: Map<u64, Byte>, addr: u64, w: Width) -> Option<Seq<Byte>> {
    if forall|i: int| 0 <= i < w.bytes() ==> mem.dom().contains(#[trigger] byte_addr(addr, i)) {
        Some(Seq::new(w.bytes() as nat, |i: int| mem[byte_addr(addr, i)]))
    } else {
        None
    }
}

/// The constant that `r` is under the pins. Pinned nodes and constants are; so is what is
/// computed from such by an operator that has a result, what a choice picks where the
/// condition or what it picks depends on a pin, and a load from such an address that may be
/// folded, where memory holds constants.
#[verifier::opaque]
pub open spec fn settled(
    ns: Seq<Node>,
    r: Ref,
    pins: Seq<(Ref, u64)>,
    k: Known,
    pe: Image,
) -> Option<u64>
    decreases r.idx,
{
    let w = width_of(ns, r);
    let k = k.at(r);
    if !(has(ns, r) && operands_before(op_of(ns, r), r.idx as int)) {
        None
    } else if pin_of(pins, r) is Some {
        Some(pin_of(pins, r)->0 & w.mask())
    } else if !reaches_pin(ns, r, pins) {
        const_of(ns, r)
    } else {
        match op_of(ns, r) {
            Op::Load(a, _) => match settled(ns, a, pins, k, pe) {
                Some(c) => match bytes_from(k.now, c, w) {
                    Some(bytes) => if foldable(pe, c, w) && all_known(bytes) {
                        Some(join_bytes(ns, bytes, some_env()))
                    } else {
                        None
                    },
                    None => None,
                },
                None => None,
            },
            Op::Bin(op, a, b) => match (settled(ns, a, pins, k, pe), settled(ns, b, pins, k, pe)) {
                (Some(x), Some(y)) => bin_fold(op, x, y, width_of(ns, a).wider(width_of(ns, b))),
                _ => None,
            },
            Op::Un(op, a) => match settled(ns, a, pins, k, pe) {
                Some(x) => Some(un_val(op, x, w)),
                None => None,
            },
            Op::Zext(a) => settled(ns, a, pins, k, pe),
            Op::Sext(a) => match settled(ns, a, pins, k, pe) {
                Some(x) => Some(sign_extend_spec(x, width_of(ns, a)) & w.mask()),
                None => None,
            },
            Op::Trunc(a) => match settled(ns, a, pins, k, pe) {
                Some(x) => Some(x & w.mask()),
                None => None,
            },
            Op::Select(c, a, b) => match settled(ns, c, pins, k, pe) {
                Some(x) => {
                    let chosen = if x != 0 {
                        a
                    } else {
                        b
                    };
                    if reaches_pin(ns, c, pins) || reaches_pin(ns, chosen, pins) {
                        match settled(ns, chosen, pins, k, pe) {
                            Some(y) => Some(y & w.mask()),
                            None => None,
                        }
                    } else {
                        None
                    }
                },
                None => None,
            },
            _ => None,
        }
    }
}

/// The bytes that a load finds when its address has become a constant under the pins, where
/// the load may be folded and memory holds them all.
pub open spec fn resolved(
    ns: Seq<Node>,
    r: Ref,
    pins: Seq<(Ref, u64)>,
    k: Known,
    pe: Image,
) -> Option<Seq<Byte>> {
    let w = width_of(ns, r);
    match op_of(ns, r) {
        Op::Load(a, _) if pin_of(pins, r) is None && reaches_pin(ns, r, pins) => match settled(
            ns,
            a,
            pins,
            k.at(r),
            pe,
        ) {
            Some(c) => if foldable(pe, c, w) {
                bytes_from(k.at(r).now, c, w)
            } else {
                None
            },
            None => None,
        },
        _ => None,
    }
}

/// Whether `v` is a constant where node `i` is one under the pins, and what memory holds
/// where node `i` is a load that is resolved.
pub open spec fn entry_settled(
    ns: Seq<Node>,
    pins: Seq<(Ref, u64)>,
    k: Known,
    pe: Image,
    i: usize,
    v: Ref,
) -> bool {
    &&& settled(ns, Ref { idx: i }, pins, k, pe) matches Some(c) ==> const_of(ns, v) == Some(c)
    &&& resolved(ns, Ref { idx: i }, pins, k, pe) matches Some(bytes) ==> forall|e: Env| #[trigger]
        eval(ns, v, e) == join_bytes(ns, bytes, e)
}

/// A constant node has its value whatever the inputs are.
pub proof fn lemma_constant_value(ns: Seq<Node>, r: Ref, e: Env)
    requires
        nodes_ok(ns),
        has(ns, r),
        const_of(ns, r) is Some,
    ensures
        eval(ns, r, e) == const_of(ns, r)->0,
{
    assert(ok_at(ns, r.idx as int));
    lemma_mask(const_of(ns, r)->0, width_of(ns, r).mask());
}

/// What bytes join to does not change while nodes are added.
pub proof fn lemma_join_grows(a: Seq<Node>, b: Seq<Node>, bytes: Seq<Byte>, e: Env)
    requires
        nodes_ok(a),
        extends(a, b),
        forall|i: int| 0 <= i < bytes.len() ==> byte_ok(a, #[trigger] bytes[i]),
    ensures
        join_bytes(b, bytes, e) == join_bytes(a, bytes, e),
    decreases bytes.len(),
{
    if bytes.len() > 0 {
        assert(byte_ok(a, bytes[bytes.len() - 1]));
        assert forall|i: int| 0 <= i < bytes.drop_last().len() implies byte_ok(
            a,
            #[trigger] bytes.drop_last()[i],
        ) by {
            assert(bytes.drop_last()[i] == bytes[i]);
        }
        lemma_join_grows(a, b, bytes.drop_last(), e);
        if let Byte::Sym { expr, .. } = bytes.last() {
            crate::ir::expr::lemma_extends(a, b, expr, e);
        }
    }
}

/// Constant bytes join to the same whatever the inputs are.
pub proof fn lemma_join_known(ns: Seq<Node>, bytes: Seq<Byte>, e1: Env, e2: Env)
    requires
        all_known(bytes),
    ensures
        join_bytes(ns, bytes, e1) == join_bytes(ns, bytes, e2),
    decreases bytes.len(),
{
    if bytes.len() > 0 {
        assert(bytes[bytes.len() - 1] is Const);
        assert forall|i: int| 0 <= i < bytes.drop_last().len() implies (
        #[trigger] bytes.drop_last()[i]) is Const by {
            assert(bytes.drop_last()[i] == bytes[i]);
        }
        lemma_join_known(ns, bytes.drop_last(), e1, e2);
        assert(byte_value(ns, bytes.last(), e1) == byte_value(ns, bytes.last(), e2));
    }
}

/// The memory that counts further down is right as well.
pub proof fn lemma_at_ok(k: Known, r: Ref, ns: Seq<Node>)
    requires
        k.ok(ns),
    ensures
        k.at(r).ok(ns),
{
    assert forall|a: u64| #[trigger] k.since.dom().contains(a) implies byte_ok(ns, k.since[a]) by {
        assert(byte_ok(ns, k.now[a]));
    }
}

/// Bytes read from memory refer to nodes of the arena.
pub proof fn lemma_bytes_ok(k: Known, ns: Seq<Node>, addr: u64, w: Width)
    requires
        k.ok(ns),
    ensures
        bytes_from(k.now, addr, w) matches Some(bytes) ==> forall|i: int|
            0 <= i < bytes.len() ==> byte_ok(ns, #[trigger] bytes[i]),
{
    if let Some(bytes) = bytes_from(k.now, addr, w) {
        assert forall|i: int| 0 <= i < bytes.len() implies byte_ok(ns, #[trigger] bytes[i]) by {
            assert(k.now.dom().contains(byte_addr(addr, i)));
        }
    }
}

/// What is a constant stays one while nodes are added.
pub proof fn lemma_settled_grows(
    a: Seq<Node>,
    b: Seq<Node>,
    r: Ref,
    pins: Seq<(Ref, u64)>,
    k: Known,
    pe: Image,
)
    requires
        nodes_ok(a),
        extends(a, b),
        has(a, r),
        k.ok(a),
    ensures
        settled(b, r, pins, k, pe) == settled(a, r, pins, k, pe),
        resolved(b, r, pins, k, pe) == resolved(a, r, pins, k, pe),
    decreases r.idx,
{
    reveal_with_fuel(settled, 1);
    assert(b[r.idx as int] == a[r.idx as int]);
    assert(ok_at(a, r.idx as int));
    lemma_pinned_grows(a, b, r, pins, some_env());
    lemma_at_ok(k, r, a);
    let j = k.at(r);
    match op_of(a, r) {
        Op::Load(x, _) => {
            lemma_settled_grows(a, b, x, pins, j, pe);
            if let Some(c) = settled(a, x, pins, j, pe) {
                let w = width_of(a, r);
                lemma_bytes_ok(j, a, c, w);
                if let Some(bytes) = bytes_from(j.now, c, w) {
                    lemma_join_grows(a, b, bytes, some_env());
                }
            }
        },
        Op::Un(_, x) | Op::Zext(x) | Op::Sext(x) | Op::Trunc(x) => {
            lemma_settled_grows(a, b, x, pins, j, pe);
        },
        Op::Bin(_, x, y) => {
            lemma_settled_grows(a, b, x, pins, j, pe);
            lemma_settled_grows(a, b, y, pins, j, pe);
        },
        Op::Select(c, x, y) => {
            lemma_settled_grows(a, b, c, pins, j, pe);
            lemma_settled_grows(a, b, x, pins, j, pe);
            lemma_settled_grows(a, b, y, pins, j, pe);
            lemma_pinned_grows(a, b, c, pins, some_env());
            lemma_pinned_grows(a, b, x, pins, some_env());
            lemma_pinned_grows(a, b, y, pins, some_env());
        },
        _ => {},
    }
}

/// Memory that holds more settles no less.
pub open spec fn knows_more(less: Known, more: Known) -> bool {
    forall|a: u64| #[trigger]
        less.now.dom().contains(a) ==> more.now.dom().contains(a) && more.now[a] == less.now[a]
}

/// What is a constant where nothing but some bytes is known is one where more is.
pub proof fn lemma_settled_more(
    ns: Seq<Node>,
    r: Ref,
    pins: Seq<(Ref, u64)>,
    m: Map<u64, Byte>,
    k: Known,
    pe: Image,
)
    requires
        knows_more(known_by(m), k),
        knows_more(known_by(m), known_by(k.since)),
    ensures
        settled(ns, r, pins, known_by(m), pe) matches Some(c) ==> settled(ns, r, pins, k, pe) == Some(
            c,
        ),
        resolved(ns, r, pins, known_by(m), pe) matches Some(bytes) ==> resolved(ns, r, pins, k, pe)
            == Some(bytes),
    decreases r.idx,
{
    reveal_with_fuel(settled, 1);
    let j = k.at(r);
    assert(known_by(m).at(r) == known_by(m));
    if has(ns, r) && operands_before(op_of(ns, r), r.idx as int) {
        match op_of(ns, r) {
            Op::Load(x, _) => {
                lemma_settled_more(ns, x, pins, m, j, pe);
                if let Some(c) = settled(ns, x, pins, known_by(m), pe) {
                    let w = width_of(ns, r);
                    if let Some(bytes) = bytes_from(m, c, w) {
                        assert(bytes_from(j.now, c, w) == Some(bytes)) by {
                            assert forall|i: int| 0 <= i < w.bytes() implies j.now.dom().contains(
                                #[trigger] byte_addr(c, i),
                            ) && j.now[byte_addr(c, i)] == m[byte_addr(c, i)] by {
                                assert(known_by(m).now.dom().contains(byte_addr(c, i)));
                            }
                            assert(bytes_from(j.now, c, w)->0 =~= bytes);
                        }
                    }
                }
            },
            Op::Un(_, x) | Op::Zext(x) | Op::Sext(x) | Op::Trunc(x) => {
                lemma_settled_more(ns, x, pins, m, j, pe);
            },
            Op::Bin(_, x, y) => {
                lemma_settled_more(ns, x, pins, m, j, pe);
                lemma_settled_more(ns, y, pins, m, j, pe);
            },
            Op::Select(c, x, y) => {
                lemma_settled_more(ns, c, pins, m, j, pe);
                lemma_settled_more(ns, x, pins, m, j, pe);
                lemma_settled_more(ns, y, pins, m, j, pe);
            },
            _ => {},
        }
    }
}

/// What was settled stays so while nodes are added.
pub proof fn lemma_entry_settled_grows(
    a: Seq<Node>,
    b: Seq<Node>,
    pins: Seq<(Ref, u64)>,
    k: Known,
    pe: Image,
    i: usize,
    v: Ref,
)
    requires
        nodes_ok(a),
        extends(a, b),
        i < a.len(),
        has(a, v),
        k.ok(a),
        entry_settled(a, pins, k, pe, i, v),
    ensures
        entry_settled(b, pins, k, pe, i, v),
{
    let r = Ref { idx: i };
    lemma_settled_grows(a, b, r, pins, k, pe);
    assert(b[v.idx as int] == a[v.idx as int]);
    if let Some(bytes) = resolved(a, r, pins, k, pe) {
        lemma_at_ok(k, r, a);
        if let Op::Load(x, _) = op_of(a, r) {
            lemma_bytes_ok(k.at(r), a, settled(a, x, pins, k.at(r), pe)->0, width_of(a, r));
        }
        assert forall|e: Env| #[trigger] eval(b, v, e) == join_bytes(b, bytes, e) by {
            crate::ir::expr::lemma_extends(a, b, v, e);
            lemma_join_grows(a, b, bytes, e);
            assert(eval(a, v, e) == join_bytes(a, bytes, e));
        }
    }
}

/// What was settled against more memory was settled against less of it.
pub proof fn lemma_entry_settled_less(
    ns: Seq<Node>,
    pins: Seq<(Ref, u64)>,
    m: Map<u64, Byte>,
    k: Known,
    pe: Image,
    i: usize,
    v: Ref,
)
    requires
        knows_more(known_by(m), k),
        knows_more(known_by(m), known_by(k.since)),
        entry_settled(ns, pins, k, pe, i, v),
    ensures
        entry_settled(ns, pins, known_by(m), pe, i, v),
{
    lemma_settled_more(ns, Ref { idx: i }, pins, m, k, pe);
}

/// A node that reaches a pin is no constant.
pub proof fn lemma_reaching_is_symbolic(ns: Seq<Node>, r: Ref, pins: Seq<(Ref, u64)>)
    requires
        pins_hold(ns, pins),
        reaches_pin(ns, r, pins),
    ensures
        const_of(ns, r) is None,
{
    if const_of(ns, r) is Some {
        lemma_constant_unpinned(ns, r, pins);
    }
}

} // verus!
