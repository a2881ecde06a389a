//! What can be reached in a graph of numbered nodes.

use vstd::prelude::*;

verus! {

/// Whether place `k` of a walk is related to the next.
pub open spec fn related(r: spec_fn(int, int) -> bool, p: Seq<int>, k: int) -> bool {
    r(p[k], p[k + 1])
}

/// Open nodes, each related to the next.
pub open spec fn is_walk(
    r: spec_fn(int, int) -> bool,
    open: spec_fn(int) -> bool,
    p: Seq<int>,
) -> bool {
    &&& p.len() > 0
    &&& forall|k: int| 0 <= k < p.len() ==> open(#[trigger] p[k])
    &&& forall|k: int| 0 <= k < p.len() - 1 ==> #[trigger] related(r, p, k)
}

/// Whether a walk over open nodes leads from a seed to `i`.
pub open spec fn led_to(
    r: spec_fn(int, int) -> bool,
    open: spec_fn(int) -> bool,
    seed: spec_fn(int) -> bool,
    i: int,
) -> bool {
    exists|p: Seq<int>| #[trigger] is_walk(r, open, p) && seed(p[0]) && p.last() == i
}

/// Whether lists of neighbours say what a relation does.
pub open spec fn lists(succ: Seq<Vec<usize>>, r: spec_fn(int, int) -> bool) -> bool {
    &&& forall|i: int, k: int|
        0 <= i < succ.len() && 0 <= k < succ[i]@.len() ==> #[trigger] succ[i]@[k] < succ.len()
    &&& forall|i: int, j: int|
        0 <= i < succ.len() && 0 <= j < succ.len() ==> (#[trigger] succ[i]@.contains(j as usize)
            <==> r(i, j))
}

/// Whether marks say which of the nodes a predicate holds of.
pub open spec fn marked(marks: Seq<bool>, p: spec_fn(int) -> bool) -> bool {
    forall|i: int| 0 <= i < marks.len() ==> #[trigger] marks[i] == p(i)
}

/// Whether there is an edge between two open nodes.
spec fn edge(succ: Seq<Vec<usize>>, mask: Seq<bool>, i: int, j: int) -> bool {
    0 <= i < succ.len() && 0 <= j < succ.len() && mask[i] && mask[j] && succ[i]@.contains(
        j as usize,
    )
}

spec fn missing(marks: Seq<bool>, n: int) -> nat
    decreases n,
{
    if n <= 0 {
        0
    } else {
        missing(marks, n - 1) + if marks[n - 1] {
            0nat
        } else {
            1nat
        }
    }
}

proof fn lemma_missing_mark(marks: Seq<bool>, i: int, n: int)
    requires
        0 <= i < marks.len(),
        0 <= n <= marks.len(),
        !marks[i],
    ensures
        missing(marks.update(i, true), n) == missing(marks, n) - (if i < n {
            1int
        } else {
            0int
        }),
    decreases n,
{
    if n > 0 {
        lemma_missing_mark(marks, i, n - 1);
    }
}

/// A walk can go on to what its last node is related to.
pub proof fn lemma_walk_push(
    r: spec_fn(int, int) -> bool,
    open: spec_fn(int) -> bool,
    seed: spec_fn(int) -> bool,
    i: int,
    j: int,
)
    requires
        led_to(r, open, seed, i),
        r(i, j),
        open(j),
    ensures
        led_to(r, open, seed, j),
{
    let p = choose|p: Seq<int>| #[trigger] is_walk(r, open, p) && seed(p[0]) && p.last() == i;
    let q = p.push(j);
    assert forall|k: int| 0 <= k < q.len() implies open(#[trigger] q[k]) by {
        if k < p.len() {
            assert(q[k] == p[k]);
        }
    }
    assert forall|k: int| 0 <= k < q.len() - 1 implies #[trigger] related(r, q, k) by {
        assert(q[k] == p[k]);
        if k < p.len() - 1 {
            assert(related(r, p, k));
            assert(q[k + 1] == p[k + 1]);
        }
    }
    assert(is_walk(r, open, q));
    assert(q[0] == p[0]);
}

proof fn lemma_walk_marked(
    succ: Seq<Vec<usize>>,
    mask: Seq<bool>,
    marks: Seq<bool>,
    r: spec_fn(int, int) -> bool,
    open: spec_fn(int) -> bool,
    p: Seq<int>,
    k: int,
)
    requires
        marks.len() == succ.len() == mask.len(),
        lists(succ, r),
        marked(mask, open),
        forall|i: int| #[trigger] open(i) ==> 0 <= i < succ.len(),
        forall|i: int, j: int| #[trigger] edge(succ, mask, i, j) && marks[i] ==> marks[j],
        is_walk(r, open, p),
        marks[p[0]],
        0 <= k < p.len(),
    ensures
        0 <= p[k] < marks.len(),
        marks[p[k]],
    decreases k,
{
    assert(open(p[k]));
    if k > 0 {
        lemma_walk_marked(succ, mask, marks, r, open, p, k - 1);
        assert(related(r, p, k - 1));
        assert(open(p[k - 1]));
        assert(mask[p[k]] && mask[p[k - 1]]);
        assert(succ[p[k - 1]]@.contains(p[k] as usize));
        assert(edge(succ, mask, p[k - 1], p[k]));
    }
}

/// Every open node a walk leads to from one of the seeds.
pub fn closure(
    succ: &Vec<Vec<usize>>,
    mask: &Vec<bool>,
    seeds: &Vec<bool>,
    Ghost(r): Ghost<spec_fn(int, int) -> bool>,
    Ghost(open): Ghost<spec_fn(int) -> bool>,
    Ghost(seed): Ghost<spec_fn(int) -> bool>,
) -> (marks: Vec<bool>)
    requires
        succ@.len() == seeds@.len() == mask@.len(),
        lists(succ@, r),
        marked(mask@, open),
        marked(seeds@, seed),
        forall|i: int| #[trigger] open(i) ==> 0 <= i < succ@.len(),
    ensures
        marks@.len() == seeds@.len(),
        marked(marks@, |i: int| led_to(r, open, seed, i)),
{
    let n: usize = seeds.len();
    let mut marks: Vec<bool> = Vec::new();
    let mut stack: Vec<usize> = Vec::new();
    let mut i: usize = 0;
    while i < n
        invariant
            i <= n,
            n == seeds@.len(),
            marks@.len() == i,
            mask@.len() == n,
            forall|k: int| 0 <= k < i ==> #[trigger] marks@[k] == (seeds@[k] && mask@[k]),
            forall|k: int| 0 <= k < stack@.len() ==> #[trigger] stack@[k] < i,
            forall|k: int|
                0 <= k < i && #[trigger] marks@[k] ==> stack@.contains(k as usize),
            forall|k: int| 0 <= k < stack@.len() ==> marks@[#[trigger] stack@[k] as int],
        decreases n - i,
    {
        let ghost s0 = stack@;
        let ghost m0 = marks@;
        let on: bool = seeds[i] && mask[i];
        marks.push(on);
        if on {
            stack.push(i);
            proof {
                crate::ir::walk::lemma_push_contains(s0, i);
            }
        }
        proof {
            assert forall|k: int| 0 <= k < i + 1 && #[trigger] marks@[k] implies stack@.contains(
                k as usize,
            ) by {
                if k < i {
                    assert(m0[k]);
                    assert(s0.contains(k as usize));
                }
            }
            assert forall|k: int| 0 <= k < stack@.len() implies marks@[#[trigger] stack@[k] as int] by {
                if k < s0.len() {
                    assert(stack@[k] == s0[k]);
                    assert(m0[s0[k] as int]);
                }
            }
        }
        i = i + 1;
    }
    proof {
        assert forall|k: int| 0 <= k < n && #[trigger] marks@[k] implies led_to(r, open, seed, k) by {
            let p = seq![k];
            assert(mask@[k] == open(k));
            assert(is_walk(r, open, p));
            assert(p[0] == k);
        }
    }
    while stack.len() > 0
        invariant
            n == seeds@.len() == succ@.len() == marks@.len(),
            lists(succ@, r),
            marked(mask@, open),
            mask@.len() == n,
            forall|i: int| #[trigger] open(i) ==> 0 <= i < n,
            forall|k: int| 0 <= k < n && #[trigger] seeds@[k] && mask@[k] ==> marks@[k],
            forall|k: int| 0 <= k < n && #[trigger] marks@[k] ==> led_to(r, open, seed, k),
            forall|k: int|
                0 <= k < stack@.len() ==> (#[trigger] stack@[k]) < n && marks@[stack@[k] as int],
            forall|a: int, b: int| #[trigger]
                edge(succ@, mask@, a, b) && marks@[a] && !stack@.contains(a as usize) ==> marks@[b],
        decreases missing(marks@, n as int), stack@.len(),
    {
        let ghost s0 = stack@;
        let ghost m0 = marks@;
        let at: usize = stack.pop().unwrap();
        proof {
            assert(s0[s0.len() - 1] == at);
            assert(stack@ =~= s0.drop_last());
            assert forall|a: int, b: int| #[trigger]
                edge(succ@, mask@, a, b) && marks@[a] && a != at && !stack@.contains(
                    a as usize,
                ) implies marks@[b] by {
                if s0.contains(a as usize) {
                    let j = choose|j: int| 0 <= j < s0.len() && s0[j] == a as usize;
                    assert(j < stack@.len());
                    assert(stack@[j] == a as usize);
                }
            }
        }
        let mut k: usize = 0;
        while k < succ[at].len()
            invariant
                at < n,
                n == seeds@.len() == succ@.len() == marks@.len(),
                k <= succ@[at as int]@.len(),
                lists(succ@, r),
            marked(mask@, open),
            mask@.len() == n,
            forall|i: int| #[trigger] open(i) ==> 0 <= i < n,
                led_to(r, open, seed, at as int),
                marks@[at as int],
                forall|j: int| 0 <= j < n && #[trigger] seeds@[j] && mask@[j] ==> marks@[j],
                forall|j: int| 0 <= j < n && #[trigger] marks@[j] ==> led_to(r, open, seed, j),
                forall|j: int|
                    0 <= j < stack@.len() ==> (#[trigger] stack@[j]) < n && marks@[stack@[j] as int],
                forall|a: int, b: int| #[trigger]
                    edge(succ@, mask@, a, b) && marks@[a] && a != at && !stack@.contains(a as usize)
                        ==> marks@[b],
                forall|j: int|
                    0 <= j < k ==> mask@[#[trigger] succ@[at as int]@[j] as int]
                        ==> marks@[succ@[at as int]@[j] as int],
                missing(marks@, n as int) < missing(m0, n as int) || (marks@ == m0 && stack@.len()
                    < s0.len()),
                missing(marks@, n as int) <= missing(m0, n as int),
            decreases succ@[at as int]@.len() - k,
        {
            let to: usize = succ[at][k];
            proof {
                assert(succ@[at as int]@[k as int] < succ@.len());
                assert(succ@[at as int]@[k as int] == (to as int) as usize);
                assert(succ@[at as int]@.contains((to as int) as usize));
                assert(r(at as int, to as int));
                assert(mask@[to as int] == open(to as int));
            }
            if mask[to] && !marks[to] {
                let ghost s1 = stack@;
                let ghost m1 = marks@;
                proof {
                    lemma_missing_mark(marks@, to as int, n as int);
                    lemma_walk_push(r, open, seed, at as int, to as int);
                }
                marks.set(to, true);
                stack.push(to);
                proof {
                    crate::ir::walk::lemma_push_contains(s1, to);
                    assert forall|a: int, b: int| #[trigger]
                        edge(succ@, mask@, a, b) && marks@[a] && a != at && !stack@.contains(
                            a as usize,
                        ) implies marks@[b] by {
                        assert(a != to);
                        assert(m1[a]);
                        assert(!s1.contains(a as usize));
                    }
                    assert forall|j: int| 0 <= j < stack@.len() implies (#[trigger] stack@[j]) < n
                        && marks@[stack@[j] as int] by {
                        if j < s1.len() {
                            assert(stack@[j] == s1[j]);
                        }
                    }
                }
            }
            k = k + 1;
        }
        proof {
            assert forall|a: int, b: int| #[trigger]
                edge(succ@, mask@, a, b) && marks@[a] && !stack@.contains(a as usize) implies marks@[b] by {
                if a == at {
                    let j = choose|j: int|
                        0 <= j < succ@[a]@.len() && succ@[a]@[j] == b as usize;
                    assert(marks@[succ@[at as int]@[j] as int]);
                }
            }
        }
    }
    proof {
        let f = |i: int| led_to(r, open, seed, i);
        assert forall|j: int| 0 <= j < marks@.len() implies #[trigger] marks@[j] == f(j) by {
            if led_to(r, open, seed, j) {
                let p = choose|p: Seq<int>| #[trigger]
                    is_walk(r, open, p) && seed(p[0]) && p.last() == j;
                assert(open(p[0]));
                assert(mask@[p[0]]);
                assert(seeds@[p[0]]);
                lemma_walk_marked(succ@, mask@, marks@, r, open, p, p.len() - 1);
            }
        }
    }
    marks
}

} // verus!
