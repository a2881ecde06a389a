//! The order of block identities: by handler, then by bytecode position.

use crate::ir::graph::BlockId;
use vstd::prelude::*;

verus! {

/// Whether one identity comes before another: by handler, then by bytecode position, where
/// no position comes first.
pub open spec fn id_before(a: BlockId, b: BlockId) -> bool {
    a.handler < b.handler || (a.handler == b.handler && match (a.vip, b.vip) {
        (None, Some(_)) => true,
        (Some(x), Some(y)) => x < y,
        _ => false,
    })
}

/// Whether one identity comes before another.
pub fn comes_before(a: BlockId, b: BlockId) -> (r: bool)
    ensures
        r == id_before(a, b),
{
    a.handler < b.handler || (a.handler == b.handler && match (a.vip, b.vip) {
        (None, Some(_)) => true,
        (Some(x), Some(y)) => x < y,
        _ => false,
    })
}

/// Identities in ascending order, each once.
pub open spec fn ascending(s: Seq<BlockId>) -> bool {
    forall|i: int, j: int| 0 <= i < j < s.len() ==> id_before(#[trigger] s[i], #[trigger] s[j])
}

/// Adds an identity to an ascending list, unless it is there.
pub fn insert_id(v: &mut Vec<BlockId>, id: BlockId)
    requires
        ascending(old(v)@),
    ensures
        ascending(final(v)@),
        forall|x: BlockId| #[trigger]
            final(v)@.contains(x) <==> old(v)@.contains(x) || x == id,
        final(v)@.len() <= old(v)@.len() + 1,
{
    let ghost v0 = v@;
    let mut k: usize = 0;
    while k < v.len() && comes_before(v[k], id)
        invariant
            k <= v@.len(),
            v@ == v0,
            forall|i: int| 0 <= i < k ==> id_before(#[trigger] v@[i], id),
        decreases v@.len() - k,
    {
        k = k + 1;
    }
    if k < v.len() && v[k] == id {
        assert(v0[k as int] == id);
        return;
    }
    v.insert(k, id);
    proof {
        assert(v@ =~= v0.insert(k as int, id));
        assert forall|i: int, j: int| 0 <= i < j < v@.len() implies id_before(
            #[trigger] v@[i],
            #[trigger] v@[j],
        ) by {
            let oi = if i < k {
                i
            } else {
                i - 1
            };
            let oj = if j < k {
                j
            } else {
                j - 1
            };
            if i == k {
                assert(v@[j] == v0[j - 1]);
                assert(!id_before(v0[k as int], id));
                if j - 1 > k {
                    assert(id_before(v0[k as int], v0[j - 1]));
                }
            } else if j == k {
                assert(v@[i] == v0[i]);
            } else {
                assert(v@[i] == v0[oi] && v@[j] == v0[oj]);
                assert(id_before(v0[oi], v0[oj]));
            }
        }
        assert forall|x: BlockId| #[trigger] v@.contains(x) <==> v0.contains(x) || x == id by {
            if v0.contains(x) {
                let i = choose|i: int| 0 <= i < v0.len() && v0[i] == x;
                if i < k {
                    assert(v@[i] == x);
                } else {
                    assert(v@[i + 1] == x);
                }
            }
            if x == id {
                assert(v@[k as int] == x);
            }
            if v@.contains(x) && x != id {
                let i = choose|i: int| 0 <= i < v@.len() && v@[i] == x;
                if i < k {
                    assert(v0[i] == x);
                } else {
                    assert(v0[i - 1] == x);
                }
            }
        }
    }
}

} // verus!
