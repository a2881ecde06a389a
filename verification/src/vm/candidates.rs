//! Which parts of a branch destination are worth deciding the branch on.

use crate::ir::expr::{const_of, eval, known_zero_bits, op_of, width_of, Arena, Env, Node, Op, Ref};
use crate::ir::fold::lemma_mask;
use crate::ir::known::{known_bits_are_sound, lemma_eval_fits};
use crate::ir::value::Width;
use crate::ir::walk::{
    depends, is_leaf, leaves, lemma_push_contains, ranked, walked, walked_ranked,
};
use std::collections::HashSet;
use vstd::prelude::*;
use vstd::string::StrSliceExecFns;

verus! {

broadcast use vstd::std_specs::hash::group_hash_axioms;

/// Maximum number of arms a virtualized switch is enumerated over.
///
/// Kept small deliberately: each arm costs a state fork, and multi-way dispatches select
/// among a handful of positions rather than large jump tables.
pub const MAX_SWITCH_ARMS: u64 = 63;

/// The bits of a node that may be set, within its own width.
pub open spec fn live_bits(ns: Seq<Node>, r: Ref) -> u64 {
    !known_zero_bits(ns, r) & width_of(ns, r).mask()
}

/// Whether bits are a run from bit 0 up, of at most [`MAX_SWITCH_ARMS`].
pub open spec fn narrow_span(live: u64) -> bool {
    live == 1 || live == 3 || live == 7 || live == 15 || live == 31 || live == MAX_SWITCH_ARMS
}

/// Whether a node's value lies in a range small enough to enumerate.
pub open spec fn is_narrow(ns: Seq<Node>, r: Ref) -> bool {
    const_of(ns, r) is None && narrow_span(live_bits(ns, r))
}

/// Whether a node is a single bit: every bit but the lowest is zero.
pub open spec fn is_bit(ns: Seq<Node>, r: Ref) -> bool {
    const_of(ns, r) is None && known_zero_bits(ns, r) | 1 == u64::MAX
}

/// What has no bit that is known to be zero lies among the bits that are left.
proof fn lemma_live(v: u64, z: u64, m: u64)
    by (bit_vector)
    ensures
        v & z == 0 && v & m == v ==> v <= !z & m,
        v & z == 0 && z | 1 == 0xffff_ffff_ffff_ffff ==> v <= 1,
{
}

/// What a node is worth cannot lie outside the range it is enumerated over.
pub proof fn enumeration_misses_nothing(ns: Seq<Node>, r: Ref, e: Env)
    requires
        crate::ir::expr::nodes_ok(ns),
        crate::ir::expr::has(ns, r),
        is_narrow(ns, r),
    ensures
        eval(ns, r, e) <= live_bits(ns, r),
{
    lemma_eval_fits(ns, r, e);
    known_bits_are_sound(ns, r, e);
    let v = eval(ns, r, e);
    let z = known_zero_bits(ns, r);
    let m = width_of(ns, r).mask();
    lemma_mask(v, m);
    lemma_live(v, z, m);
}

/// A node that is a single bit is worth 0 or 1.
pub proof fn a_bit_is_zero_or_one(ns: Seq<Node>, r: Ref, e: Env)
    requires
        crate::ir::expr::nodes_ok(ns),
        crate::ir::expr::has(ns, r),
        is_bit(ns, r),
    ensures
        eval(ns, r, e) <= 1,
{
    known_bits_are_sound(ns, r, e);
    let v = eval(ns, r, e);
    let z = known_zero_bits(ns, r);
    lemma_live(v, z, 0);
}

/// Candidates with the narrowest range first.
pub open spec fn narrowest_first(v: Seq<(Ref, u64)>) -> bool {
    forall|i: int, j: int| 0 <= i <= j < v.len() ==> (#[trigger] v[i]).1 <= (#[trigger] v[j]).1
}

/// Whether one node stands before another in a list.
pub open spec fn earlier(v: Seq<Ref>, x: Ref, y: Ref) -> bool {
    exists|p: int, q: int| 0 <= p < q < v.len() && #[trigger] v[p] == x && #[trigger] v[q] == y
}

/// Candidates with ranges of the same size come in the order of a list.
pub open spec fn steady(w: Seq<Ref>, v: Seq<(Ref, u64)>) -> bool {
    forall|i: int, j: int|
        0 <= i < j < v.len() && (#[trigger] v[i]).1 == (#[trigger] v[j]).1 ==> earlier(
            w,
            v[i].0,
            v[j].0,
        )
}

/// Whether a list is another with a candidate put behind those that are no wider.
spec fn put_in(v0: Seq<(Ref, u64)>, item: (Ref, u64), v: Seq<(Ref, u64)>, k: int) -> bool {
    &&& 0 <= k <= v0.len()
    &&& v == v0.insert(k, item)
    &&& forall|i: int| k <= i < v0.len() ==> item.1 < (#[trigger] v0[i]).1
}

/// What comes later in the list goes behind what came before it.
proof fn lemma_steady(
    w: Seq<Ref>,
    v0: Seq<(Ref, u64)>,
    item: (Ref, u64),
    v: Seq<(Ref, u64)>,
    k: int,
    m: int,
)
    requires
        steady(w, v0),
        put_in(v0, item, v, k),
        0 <= m < w.len(),
        w[m] == item.0,
        forall|i: int| 0 <= i < v0.len() ==> w.take(m).contains((#[trigger] v0[i]).0),
    ensures
        steady(w, v),
{
    assert forall|i: int, j: int|
        0 <= i < j < v.len() && (#[trigger] v[i]).1 == (#[trigger] v[j]).1 implies earlier(
        w,
        v[i].0,
        v[j].0,
    ) by {
        if j == k {
            assert(v[i] == v0[i]);
            let p = choose|p: int| 0 <= p < w.take(m).len() && w.take(m)[p] == v0[i].0;
            assert(w[p] == v0[i].0 && w[m] == item.0);
        } else if i == k {
            assert(v[j] == v0[j - 1]);
        } else {
            let i0 = if i < k {
                i
            } else {
                i - 1
            };
            let j0 = if j < k {
                j
            } else {
                j - 1
            };
            assert(v[i] == v0[i0] && v[j] == v0[j0]);
        }
    }
}

/// Adds a candidate behind those that are no wider.
fn insert_narrow(v: &mut Vec<(Ref, u64)>, item: (Ref, u64))
    requires
        narrowest_first(old(v)@),
    ensures
        narrowest_first(final(v)@),
        forall|x: (Ref, u64)| #[trigger]
            final(v)@.contains(x) <==> old(v)@.contains(x) || x == item,
        exists|k: int| #[trigger] put_in(old(v)@, item, final(v)@, k),
{
    let ghost v0 = v@;
    let mut k: usize = 0;
    while k < v.len() && v[k].1 <= item.1
        invariant
            k <= v@.len(),
            v@ == v0,
            forall|i: int| 0 <= i < k ==> (#[trigger] v@[i]).1 <= item.1,
        decreases v@.len() - k,
    {
        k = k + 1;
    }
    v.insert(k, item);
    proof {
        assert(v@ =~= v0.insert(k as int, item));
        assert(put_in(v0, item, v@, k as int)) by {
            assert forall|i: int| k <= i < v0.len() implies item.1 < (#[trigger] v0[i]).1 by {
                assert(v0[k as int].1 <= v0[i].1);
            }
        }
        assert forall|i: int, j: int| 0 <= i <= j < v@.len() implies (#[trigger] v@[i]).1 <= (
        #[trigger] v@[j]).1 by {
            let oi = if i < k {
                i
            } else {
                i - 1
            };
            let oj = if j < k {
                j
            } else {
                j - 1
            };
            if i < j {
                if i == k {
                    assert(v@[j] == v0[j - 1]);
                    assert(v0[k as int].1 <= v0[j - 1].1);
                } else if j == k {
                    assert(v@[i] == v0[i]);
                } else {
                    assert(v@[i] == v0[oi] && v@[j] == v0[oj]);
                    assert(v0[oi].1 <= v0[oj].1);
                }
            }
        }
        assert forall|x: (Ref, u64)| #[trigger] v@.contains(x) <==> v0.contains(x) || x == item by {
            if v0.contains(x) {
                let i = choose|i: int| 0 <= i < v0.len() && v0[i] == x;
                if i < k {
                    assert(v@[i] == x);
                } else {
                    assert(v@[i + 1] == x);
                }
            }
            if x == item {
                assert(v@[k as int] == x);
            }
            if v@.contains(x) && x != item {
                let i = choose|i: int| 0 <= i < v@.len() && v@[i] == x;
                if i < k {
                    assert(v0[i] == x);
                } else {
                    assert(v0[i - 1] == x);
                }
            }
        }
    }
}

/// Subexpressions of `dest` whose provable value range is narrow enough to enumerate, paired
/// with the largest value each can take, narrowest range first: fewer forks, and a narrow
/// index is more likely to be the actual selector rather than an incidental subexpression.
pub fn narrow_indices(a: &Arena, dest: Ref) -> (out: Vec<(Ref, u64)>)
    requires
        a.wf(),
        a.holds(dest),
    ensures
        narrowest_first(out@),
        steady(walked(a.nodes@, dest), out@),
        forall|x: (Ref, u64)| #[trigger]
            out@.contains(x) <==> depends(a.nodes@, dest, x.0) && is_narrow(a.nodes@, x.0) && x.1
                == live_bits(a.nodes@, x.0),
        forall|i: int| 0 <= i < out@.len() ==> a.holds((#[trigger] out@[i]).0),
{
    let ghost ns = a.nodes@;
    let mut probe = a.clone();
    let all = a.reachable(dest);
    let mut out: Vec<(Ref, u64)> = Vec::new();
    let mut k: usize = 0;
    while k < all.len()
        invariant
            k <= all@.len(),
            a.wf(),
            probe.wf(),
            ns == a.nodes@,
            probe.nodes@ == ns,
            narrowest_first(out@),
            steady(all@, out@),
            forall|i: int| 0 <= i < all@.len() ==> a.holds(#[trigger] all@[i]),
            forall|x: (Ref, u64)| #[trigger]
                out@.contains(x) <==> all@.take(k as int).contains(x.0) && is_narrow(ns, x.0) && x.1
                    == live_bits(ns, x.0),
        decreases all@.len() - k,
    {
        let cur = all[k];
        let ghost out0 = out@;
        if !a.is_const(cur) {
            let zero: u64 = probe.known_zero(cur);
            let live: u64 = !zero & a.width(cur).mask();
            if live == 1 || live == 3 || live == 7 || live == 15 || live == 31 || live
                == MAX_SWITCH_ARMS {
                insert_narrow(&mut out, (cur, live));
                proof {
                    let at = choose|at: int| #[trigger] put_in(out0, (cur, live), out@, at);
                    assert forall|i: int| 0 <= i < out0.len() implies all@.take(k as int).contains(
                        (#[trigger] out0[i]).0,
                    ) by {
                        assert(out0.contains(out0[i]));
                    }
                    lemma_steady(all@, out0, (cur, live), out@, at, k as int);
                }
            }
        }
        proof {
            assert(all@.take(k + 1) =~= all@.take(k as int).push(cur));
            lemma_push_contains(all@.take(k as int), cur);
        }
        k = k + 1;
    }
    proof {
        assert(all@.take(all@.len() as int) =~= all@);
        assert forall|i: int| 0 <= i < out@.len() implies a.holds((#[trigger] out@[i]).0) by {
            assert(out@.contains(out@[i]));
            let j = choose|j: int| 0 <= j < all@.len() && all@[j] == out@[i].0;
            assert(a.holds(all@[j]));
        }
    }
    out
}

/// Whether a name mentions flags.
pub open spec fn mentions_flag(s: Seq<char>) -> bool {
    exists|i: int| #[trigger] flag_at(s, i)
}

/// Whether `flag` is written at a place of a name.
pub open spec fn flag_at(s: Seq<char>, i: int) -> bool {
    0 <= i <= s.len() - 4 && s[i] == 'f' && s[i + 1] == 'l' && s[i + 2] == 'a' && s[i + 3] == 'g'
}

fn is_flag_name(s: &'static str) -> (b: bool)
    ensures
        b == mentions_flag(s@),
{
    let n: usize = s.unicode_len();
    let mut i: usize = 0;
    while i < n && n - i >= 4
        invariant
            i <= n == s@.len(),
            forall|k: int| 0 <= k < i ==> !#[trigger] flag_at(s@, k),
        decreases n - i,
    {
        if s.get_char(i) == 'f' && s.get_char(i + 1) == 'l' && s.get_char(i + 2) == 'a'
            && s.get_char(i + 3) == 'g' {
            assert(flag_at(s@, i as int));
            return true;
        }
        i = i + 1;
    }
    false
}

/// Whether a node is an opaque that stands for an entry flag.
pub open spec fn is_flag(ns: Seq<Node>, r: Ref) -> bool {
    match op_of(ns, r) {
        Op::Opaque(tag, _) => mentions_flag(tag@),
        _ => false,
    }
}

/// Whether a node is an 8-bit input.
pub open spec fn is_byte_leaf(ns: Seq<Node>, r: Ref) -> bool {
    is_leaf(op_of(ns, r)) && width_of(ns, r) == Width::W8 && const_of(ns, r) is None
}

/// Whether one node lies deeper in a walk than another, or as deep and before it.
pub open spec fn deeper(w: Seq<(Ref, nat)>, x: Ref, y: Ref) -> bool {
    exists|p: int, q: int|
        0 <= p < w.len() && 0 <= q < w.len() && (#[trigger] w[p]).0 == x && (#[trigger] w[q]).0 == y
            && (w[p].1 > w[q].1 || w[p].1 == w[q].1 && p < q)
}

/// A list of nodes, the deepest first.
pub open spec fn deepest_first(w: Seq<(Ref, nat)>, v: Seq<Ref>) -> bool {
    forall|j: int, k: int| 0 <= j < k < v.len() ==> deeper(w, #[trigger] v[j], #[trigger] v[k])
}

/// A list of nodes in the order of another.
pub open spec fn in_order(w: Seq<Ref>, v: Seq<Ref>) -> bool {
    forall|j: int, k: int| 0 <= j < k < v.len() ==> earlier(w, #[trigger] v[j], #[trigger] v[k])
}

/// Where the three groups of candidates of a branch destination end: entry flags, single
/// bits, the innermost first, and 8-bit inputs, each candidate in the first group that takes
/// it, and otherwise in the order of the walk.
pub open spec fn grouped(ns: Seq<Node>, dest: Ref, out: Seq<Ref>, a: int, b: int) -> bool {
    &&& 0 <= a <= b <= out.len()
    &&& out.no_duplicates()
    &&& forall|x: Ref| #[trigger]
        out.take(a).contains(x) <==> depends(ns, dest, x) && is_flag(ns, x)
    &&& forall|x: Ref| #[trigger]
        out.take(b).contains(x) <==> depends(ns, dest, x) && (is_flag(ns, x) || is_bit(ns, x))
    &&& in_order(walked(ns, dest), out.take(a))
    &&& deepest_first(walked_ranked(ns, dest), out.subrange(a, b))
    &&& in_order(walked(ns, dest), out.skip(b))
    &&& forall|x: Ref| #[trigger]
        out.contains(x) <==> depends(ns, dest, x) && (is_flag(ns, x) || is_bit(ns, x)
            || is_byte_leaf(ns, x))
}

/// Whether a list is another with the nodes of `all` at ascending places added.
spec fn picked(old_out: Seq<Ref>, all: Seq<Ref>, out: Seq<Ref>, places: Seq<int>) -> bool {
    &&& out.len() == old_out.len() + places.len()
    &&& forall|k: int|
        0 <= k < places.len() ==> 0 <= #[trigger] places[k] < all.len() && out[old_out.len() + k]
            == all[places[k]]
    &&& forall|j: int, k: int|
        0 <= j < k < places.len() ==> #[trigger] places[j] < #[trigger] places[k]
}

/// What is kept of a list keeps its order.
proof fn lemma_kept_order(v: Seq<Ref>, f: spec_fn(Ref) -> bool, i: int, j: int)
    requires
        0 <= i < j < v.filter(f).len(),
    ensures
        earlier(v, v.filter(f)[i], v.filter(f)[j]),
    decreases v.len(),
{
    reveal(Seq::filter);
    let u = v.drop_last();
    let x = v.filter(f)[i];
    if f(v.last()) && j == v.filter(f).len() - 1 {
        assert(u.filter(f)[i] == x);
        lemma_kept_from(u, f, i);
        let p = choose|p: int| 0 <= p < u.len() && u[p] == x;
        assert(v[p] == x && v[v.len() - 1] == v.filter(f)[j]);
    } else {
        lemma_kept_order(u, f, i, j);
        let (p, q) = choose|p: int, q: int|
            0 <= p < q < u.len() && #[trigger] u[p] == u.filter(f)[i] && #[trigger] u[q] == u.filter(
                f,
            )[j];
        assert(v[p] == v.filter(f)[i] && v[q] == v.filter(f)[j]);
    }
}

/// What is kept of a list is in it.
proof fn lemma_kept_from(v: Seq<Ref>, f: spec_fn(Ref) -> bool, i: int)
    requires
        0 <= i < v.filter(f).len(),
    ensures
        v.contains(v.filter(f)[i]),
    decreases v.len(),
{
    reveal(Seq::filter);
    let u = v.drop_last();
    if f(v.last()) && i == v.filter(f).len() - 1 {
        assert(v[v.len() - 1] == v.filter(f)[i]);
    } else {
        lemma_kept_from(u, f, i);
        let p = choose|p: int| 0 <= p < u.len() && u[p] == u.filter(f)[i];
        assert(v[p] == v.filter(f)[i]);
    }
}

/// Adds to `out` the nodes of `all` that are marked and not there yet, in their order.
fn push_marked(out: &mut Vec<Ref>, all: &Vec<Ref>, marks: &Vec<bool>) -> (places: Ghost<Seq<int>>)
    requires
        old(out)@.no_duplicates(),
        marks@.len() == all@.len(),
    ensures
        final(out)@.no_duplicates(),
        old(out)@.is_prefix_of(final(out)@),
        picked(old(out)@, all@, final(out)@, places@),
        forall|x: Ref| #[trigger]
            final(out)@.contains(x) <==> old(out)@.contains(x) || exists|i: int|
                0 <= i < all@.len() && marks@[i] && #[trigger] all@[i] == x,
{
    let ghost out0 = out@;
    let mut seen: HashSet<usize> = HashSet::new();
    let mut j: usize = 0;
    while j < out.len()
        invariant
            j <= out@.len(),
            out@ == out0,
            forall|k: usize| #[trigger]
                seen@.contains(k) <==> out@.take(j as int).contains(Ref { idx: k }),
        decreases out@.len() - j,
    {
        let ghost s0 = seen@;
        seen.insert(out[j].idx);
        proof {
            assert(out@.take(j + 1) =~= out@.take(j as int).push(out@[j as int]));
            lemma_push_contains(out@.take(j as int), out@[j as int]);
            assert forall|k: usize| #[trigger]
                seen@.contains(k) <==> out@.take(j + 1).contains(Ref { idx: k }) by {
                assert(s0.contains(k) <==> out@.take(j as int).contains(Ref { idx: k }));
            }
        }
        j = j + 1;
    }
    proof {
        assert(out@.take(out@.len() as int) =~= out@);
        assert(out0.take(out0.len() as int) =~= out0);
    }
    let mut i: usize = 0;
    let ghost mut places = Seq::<int>::empty();
    while i < all.len()
        invariant
            i <= all@.len() == marks@.len(),
            out@.no_duplicates(),
            out0.is_prefix_of(out@),
            picked(out0, all@, out@, places),
            forall|k: int| 0 <= k < places.len() ==> #[trigger] places[k] < i,
            forall|k: usize| #[trigger] seen@.contains(k) <==> out@.contains(Ref { idx: k }),
            forall|x: Ref| #[trigger]
                out@.contains(x) <==> out0.contains(x) || exists|k: int|
                    0 <= k < i && marks@[k] && #[trigger] all@[k] == x,
        decreases all@.len() - i,
    {
        let ghost o1 = out@;
        let ghost s1 = seen@;
        let cur = all[i];
        if marks[i] {
            proof {
                assert(cur == Ref { idx: cur.idx });
                assert(s1.contains(cur.idx) <==> o1.contains(Ref { idx: cur.idx }));
            }
            if !seen.contains(&cur.idx) {
                seen.insert(cur.idx);
                out.push(cur);
                proof {
                    lemma_push_contains(o1, cur);
                    assert forall|k: usize| #[trigger]
                        seen@.contains(k) <==> out@.contains(Ref { idx: k }) by {
                        assert(s1.contains(k) <==> o1.contains(Ref { idx: k }));
                    }
                    assert(out0.is_prefix_of(out@)) by {
                        assert(out@.take(out0.len() as int) =~= o1.take(out0.len() as int));
                    }
                    assert(out@.no_duplicates());
                    places = places.push(i as int);
                }
            }
        }
        proof {
            assert forall|x: Ref| #[trigger]
                out@.contains(x) <==> out0.contains(x) || exists|k: int|
                    0 <= k < i + 1 && marks@[k] && #[trigger] all@[k] == x by {
                if o1.contains(x) && !out0.contains(x) {
                    let k = choose|k: int| 0 <= k < i && marks@[k] && #[trigger] all@[k] == x;
                    assert(all@[k] == x);
                }
            }
        }
        i = i + 1;
    }
    Ghost(places)
}

/// Where each node of a list stands in a walk: the deepest first, as deep ones in the order of
/// the walk.
spec fn placed(w: Seq<(Ref, nat)>, v: Seq<Ref>, ranks: Seq<usize>, at: Seq<int>) -> bool {
    &&& at.len() == ranks.len() == v.len()
    &&& forall|k: int|
        0 <= k < v.len() ==> 0 <= #[trigger] at[k] < w.len() && w[at[k]] == (v[k], ranks[k] as nat)
    &&& forall|j: int, k: int| 0 <= j < k < v.len() ==> #[trigger] ahead(ranks, at, j, k)
}

/// Whether one place of such a list is deeper than another, or as deep and earlier.
spec fn ahead(ranks: Seq<usize>, at: Seq<int>, j: int, k: int) -> bool {
    ranks[j] > ranks[k] || ranks[j] == ranks[k] && at[j] < at[k]
}

/// A node put behind those that lie no less deep, and before the others.
proof fn lemma_placed(
    w: Seq<(Ref, nat)>,
    v0: Seq<Ref>,
    r0: Seq<usize>,
    at: Seq<int>,
    k: int,
    x: Ref,
    d: usize,
    m: int,
)
    requires
        placed(w, v0, r0, at),
        0 <= k <= r0.len(),
        0 <= m < w.len(),
        w[m] == (x, d as nat),
        forall|j: int| 0 <= j < at.len() ==> #[trigger] at[j] < m,
        forall|j: int| 0 <= j < k ==> #[trigger] r0[j] >= d,
        k < r0.len() ==> r0[k] < d,
    ensures
        placed(w, v0.insert(k, x), r0.insert(k, d), at.insert(k, m)),
{
    let v = v0.insert(k, x);
    let r = r0.insert(k, d);
    let t = at.insert(k, m);
    assert forall|j: int| 0 <= j < v.len() implies 0 <= #[trigger] t[j] < w.len() && w[t[j]] == (
        v[j],
        r[j] as nat,
    ) by {
        let j0 = if j < k {
            j
        } else {
            j - 1
        };
        if j != k {
            assert(t[j] == at[j0]);
        }
    }
    assert forall|i: int, j: int| 0 <= i < j < v.len() implies #[trigger] ahead(r, t, i, j) by {
        let i0 = if i < k {
            i
        } else {
            i - 1
        };
        let j0 = if j < k {
            j
        } else {
            j - 1
        };
        if i == k {
            assert(r[j] == r0[j0]);
            if j0 > k {
                assert(ahead(r0, at, k, j0));
            }
        } else if j == k {
            assert(r[i] == r0[i] && t[i] == at[i]);
        } else {
            assert(ahead(r0, at, i0, j0));
        }
    }
}

/// The single bits among nodes, deepest first.
fn ranked_bits(a: &Arena, all: &Vec<Ref>, depths: &Vec<usize>) -> (out: Vec<Ref>)
    requires
        a.wf(),
        depths@.len() == all@.len(),
        forall|i: int| 0 <= i < all@.len() ==> a.holds(#[trigger] all@[i]),
    ensures
        forall|x: Ref| #[trigger] out@.contains(x) <==> all@.contains(x) && is_bit(a.nodes@, x),
        deepest_first(ranked(all@, depths@), out@),
{
    let ghost ns = a.nodes@;
    let ghost w = ranked(all@, depths@);
    let mut probe = a.clone();
    let mut out: Vec<Ref> = Vec::new();
    let mut ranks: Vec<usize> = Vec::new();
    let ghost mut at = Seq::<int>::empty();
    let mut i: usize = 0;
    while i < all.len()
        invariant
            i <= all@.len() == depths@.len(),
            a.wf(),
            probe.wf(),
            ns == a.nodes@,
            w == ranked(all@, depths@),
            probe.nodes@ == ns,
            placed(w, out@, ranks@, at),
            forall|k: int| 0 <= k < at.len() ==> #[trigger] at[k] < i,
            forall|k: int| 0 <= k < all@.len() ==> a.holds(#[trigger] all@[k]),
            forall|x: Ref| #[trigger]
                out@.contains(x) <==> all@.take(i as int).contains(x) && is_bit(ns, x),
        decreases all@.len() - i,
    {
        let cur = all[i];
        let ghost o1 = out@;
        if !a.is_const(cur) {
            let zero: u64 = probe.known_zero(cur);
            if zero | 1 == u64::MAX {
                let mut k: usize = 0;
                while k < ranks.len() && ranks[k] >= depths[i]
                    invariant
                        k <= ranks@.len(),
                        i < depths@.len(),
                        forall|j: int| 0 <= j < k ==> #[trigger] ranks@[j] >= depths@[i as int],
                    decreases ranks@.len() - k,
                {
                    k = k + 1;
                }
                let ghost r1 = ranks@;
                ranks.insert(k, depths[i]);
                out.insert(k, cur);
                proof {
                    assert(w[i as int] == (cur, depths@[i as int] as nat));
                    lemma_placed(w, o1, r1, at, k as int, cur, depths@[i as int], i as int);
                    at = at.insert(k as int, i as int);
                    assert(out@ =~= o1.insert(k as int, cur));
                    assert forall|x: Ref| #[trigger] out@.contains(x) <==> o1.contains(x) || x == cur by {
                        if o1.contains(x) {
                            let j = choose|j: int| 0 <= j < o1.len() && o1[j] == x;
                            if j < k {
                                assert(out@[j] == x);
                            } else {
                                assert(out@[j + 1] == x);
                            }
                        }
                        if x == cur {
                            assert(out@[k as int] == x);
                        }
                        if out@.contains(x) && x != cur {
                            let j = choose|j: int| 0 <= j < out@.len() && out@[j] == x;
                            if j < k {
                                assert(o1[j] == x);
                            } else {
                                assert(o1[j - 1] == x);
                            }
                        }
                    }
                }
            }
        }
        proof {
            assert(all@.take(i + 1) =~= all@.take(i as int).push(cur));
            lemma_push_contains(all@.take(i as int), cur);
        }
        i = i + 1;
    }
    proof {
        assert(all@.take(all@.len() as int) =~= all@);
        assert forall|j: int, k: int| 0 <= j < k < out@.len() implies deeper(
            w,
            #[trigger] out@[j],
            #[trigger] out@[k],
        ) by {
            assert(ahead(ranks@, at, j, k));
            assert(w[at[j]].0 == out@[j] && w[at[k]].0 == out@[k]);
        }
    }
    out
}

/// Symbolic leaves that could be the decisive bit of a virtualized conditional jump.
///
/// Ordered so the most likely candidates come first, because each one costs two state forks
/// to test: entry flags, then any node that is provably a single bit, innermost first, then
/// the remaining 8-bit inputs. A single bit counts regardless of its declared width: the
/// decisive value may be reached through a chain of truncations and extensions.
pub fn flag_candidates(a: &Arena, dest: Ref) -> (out: Vec<Ref>)
    requires
        a.wf(),
        a.holds(dest),
    ensures
        exists|i: int, j: int| #[trigger] grouped(a.nodes@, dest, out@, i, j),
        forall|i: int| 0 <= i < out@.len() ==> a.holds(#[trigger] out@[i]) && const_of(
            a.nodes@,
            out@[i],
        ) is None,
{
    let ghost ns = a.nodes@;
    let inputs = leaves(a, dest);
    let mut flags: Vec<bool> = Vec::new();
    let mut small: Vec<bool> = Vec::new();
    while flags.len() < inputs.len()
        invariant
            flags@.len() <= inputs@.len(),
            small@.len() == flags@.len(),
            a.wf(),
            ns == a.nodes@,
            forall|k: int| 0 <= k < inputs@.len() ==> a.holds(#[trigger] inputs@[k]),
            forall|x: Ref| #[trigger]
                inputs@.contains(x) <==> depends(ns, dest, x) && is_leaf(op_of(ns, x)),
            forall|k: int| 0 <= k < flags@.len() ==> #[trigger] flags@[k] == is_flag(ns, inputs@[k]),
            forall|k: int|
                0 <= k < small@.len() ==> #[trigger] small@[k] == is_byte_leaf(ns, inputs@[k]),
        decreases inputs@.len() - flags@.len(),
    {
        let k: usize = flags.len();
        let is_flag: bool = match *a.op(inputs[k]) {
            Op::Opaque(tag, _) => is_flag_name(tag),
            _ => false,
        };
        proof {
            assert(inputs@.contains(inputs@[k as int]));
        }
        flags.push(is_flag);
        small.push(a.width(inputs[k]) == Width::W8 && !a.is_const(inputs[k]));
    }
    let mut out: Vec<Ref> = Vec::new();
    let first_places = push_marked(&mut out, &inputs, &flags);
    let ghost first = out@;
    let (all, depths) = a.reachable_ranked(dest);
    let bits = ranked_bits(a, &all, &depths);
    let mut every: Vec<bool> = Vec::new();
    while every.len() < bits.len()
        invariant
            every@.len() <= bits@.len(),
            forall|k: int| 0 <= k < every@.len() ==> #[trigger] every@[k],
        decreases bits@.len() - every@.len(),
    {
        every.push(true);
    }
    let places = push_marked(&mut out, &bits, &every);
    let ghost second = out@;
    let last_places = push_marked(&mut out, &inputs, &small);
    proof {
        let i = first.len() as int;
        let j = second.len() as int;
        assert(first.is_prefix_of(second));
        assert(second.is_prefix_of(out@));
        assert(out@.take(i) =~= first);
        assert(out@.take(j) =~= second);
        assert forall|x: Ref| #[trigger] first.contains(x) <==> depends(ns, dest, x) && is_flag(
            ns,
            x,
        ) by {
            if depends(ns, dest, x) && is_flag(ns, x) {
                assert(inputs@.contains(x));
                let k = choose|k: int| 0 <= k < inputs@.len() && inputs@[k] == x;
                assert(flags@[k] && inputs@[k] == x);
            }
            if first.contains(x) {
                let k = choose|k: int| 0 <= k < inputs@.len() && flags@[k] && #[trigger] inputs@[k] == x;
                assert(inputs@.contains(x));
            }
        }
        assert forall|x: Ref| #[trigger] second.contains(x) <==> depends(ns, dest, x) && (is_flag(
            ns,
            x,
        ) || is_bit(ns, x)) by {
            assert(first.contains(x) <==> depends(ns, dest, x) && is_flag(ns, x));
            assert(all@.contains(x) <==> depends(ns, dest, x));
            if depends(ns, dest, x) && is_bit(ns, x) {
                assert(bits@.contains(x));
                let k = choose|k: int| 0 <= k < bits@.len() && bits@[k] == x;
                assert(every@[k] && bits@[k] == x);
            }
            if second.contains(x) && !first.contains(x) {
                let k = choose|k: int| 0 <= k < bits@.len() && every@[k] && #[trigger] bits@[k] == x;
                assert(bits@.contains(x));
            }
        }
        assert forall|x: Ref| #[trigger] out@.contains(x) <==> depends(ns, dest, x) && (is_flag(
            ns,
            x,
        ) || is_bit(ns, x) || is_byte_leaf(ns, x)) by {
            assert(second.contains(x) <==> depends(ns, dest, x) && (is_flag(ns, x) || is_bit(
                ns,
                x,
            )));
            if depends(ns, dest, x) && is_byte_leaf(ns, x) {
                assert(inputs@.contains(x));
                let k = choose|k: int| 0 <= k < inputs@.len() && inputs@[k] == x;
                assert(small@[k] && inputs@[k] == x);
            }
            if out@.contains(x) && !second.contains(x) {
                let k = choose|k: int| 0 <= k < inputs@.len() && small@[k] && #[trigger] inputs@[k] == x;
                assert(inputs@.contains(x));
            }
        }
        let w = walked(ns, dest);
        let is_input = |x: Ref| is_leaf(op_of(ns, x));
        assert forall|p: int, q: int| 0 <= p < q < inputs@.len() implies earlier(
            w,
            #[trigger] inputs@[p],
            #[trigger] inputs@[q],
        ) by {
            lemma_kept_order(w, is_input, p, q);
        }
        assert forall|p: int, q: int| 0 <= p < q < first.len() implies earlier(
            w,
            #[trigger] first[p],
            #[trigger] first[q],
        ) by {
            assert(first_places@[p] < first_places@[q]);
            assert(first[p] == inputs@[first_places@[p]] && first[q] == inputs@[first_places@[q]]);
        }
        let mid = out@.subrange(i, j);
        assert forall|p: int, q: int| 0 <= p < q < mid.len() implies deeper(
            walked_ranked(ns, dest),
            #[trigger] mid[p],
            #[trigger] mid[q],
        ) by {
            assert(mid[p] == second[i + p] && mid[q] == second[i + q]);
            assert(places@[p] < places@[q]);
            assert(mid[p] == bits@[places@[p]] && mid[q] == bits@[places@[q]]);
        }
        let tail = out@.skip(j);
        assert forall|p: int, q: int| 0 <= p < q < tail.len() implies earlier(
            w,
            #[trigger] tail[p],
            #[trigger] tail[q],
        ) by {
            assert(tail[p] == out@[j + p] && tail[q] == out@[j + q]);
            assert(last_places@[p] < last_places@[q]);
            assert(tail[p] == inputs@[last_places@[p]] && tail[q] == inputs@[last_places@[q]]);
        }
        assert(grouped(ns, dest, out@, i, j));
        assert forall|k: int| 0 <= k < out@.len() implies a.holds(#[trigger] out@[k]) && const_of(
            ns,
            out@[k],
        ) is None by {
            let x = out@[k];
            assert(out@.contains(x));
            assert(all@.contains(x));
            let m = choose|m: int| 0 <= m < all@.len() && all@[m] == x;
            assert(a.holds(all@[m]));
        }
    }
    out
}

} // verus!
