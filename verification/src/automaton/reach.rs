//! Reachability over a set of directed epsilon edges.
//!
//! An edge set is a `Set<(i32, i32)>` of (source, target) pairs. The central
//! notion is `eps_reaches`: a path of one or more edges leads from one state
//! to another. The lemmas here characterize how reachability grows when a
//! single edge is inserted; the incremental closure maintenance in `nfa`
//! rests on them.

use vstd::prelude::*;

verus! {

/// A path of exactly `n` edges leads from `p` to `q`.
pub open spec fn reach_n(edges: Set<(i32, i32)>, p: i32, q: i32, n: nat) -> bool
    decreases n,
{
    if n == 0 {
        p == q
    } else {
        exists|m: i32| edges.contains((p, m)) && reach_n(edges, m, q, (n - 1) as nat)
    }
}

/// A non-trivial path (one or more edges) leads from `p` to `q`.
/// A state does not reach itself through the empty path.
pub open spec fn eps_reaches(edges: Set<(i32, i32)>, p: i32, q: i32) -> bool {
    exists|n: nat| 1 <= n && reach_n(edges, p, q, n)
}

/// Paths concatenate: `i` edges from `p` to `m` and `j` edges from `m` to `q`
/// make `i + j` edges from `p` to `q`.
pub proof fn lemma_reach_concat(edges: Set<(i32, i32)>, p: i32, m: i32, q: i32, i: nat, j: nat)
    requires
        reach_n(edges, p, m, i),
        reach_n(edges, m, q, j),
    ensures
        reach_n(edges, p, q, i + j),
    decreases i,
{
    if i == 0 {
    } else {
        let w = choose|w: i32| edges.contains((p, w)) && reach_n(edges, w, m, (i - 1) as nat);
        lemma_reach_concat(edges, w, m, q, (i - 1) as nat, j);
        assert(edges.contains((p, w)) && reach_n(edges, w, q, ((i + j) - 1) as nat));
    }
}

/// Reachability survives enlarging the edge set.
pub proof fn lemma_reach_mono(e1: Set<(i32, i32)>, e2: Set<(i32, i32)>, p: i32, q: i32, n: nat)
    requires
        reach_n(e1, p, q, n),
        e1.subset_of(e2),
    ensures
        reach_n(e2, p, q, n),
    decreases n,
{
    if n == 0 {
    } else {
        let w = choose|w: i32| e1.contains((p, w)) && reach_n(e1, w, q, (n - 1) as nat);
        lemma_reach_mono(e1, e2, w, q, (n - 1) as nat);
        assert(e2.contains((p, w)) && reach_n(e2, w, q, (n - 1) as nat));
    }
}

/// `eps_reaches` is transitive.
pub proof fn lemma_reaches_trans(edges: Set<(i32, i32)>, p: i32, m: i32, q: i32)
    requires
        eps_reaches(edges, p, m),
        eps_reaches(edges, m, q),
    ensures
        eps_reaches(edges, p, q),
{
    let i = choose|i: nat| 1 <= i && reach_n(edges, p, m, i);
    let j = choose|j: nat| 1 <= j && reach_n(edges, m, q, j);
    lemma_reach_concat(edges, p, m, q, i, j);
}

/// A non-trivial path from `p` starts with an edge out of `p` and ends with
/// an edge into `q`.
pub proof fn lemma_reach_endpoints(edges: Set<(i32, i32)>, p: i32, q: i32, n: nat)
    requires
        1 <= n,
        reach_n(edges, p, q, n),
    ensures
        exists|m: i32| edges.contains((p, m)),
        exists|m: i32| edges.contains((m, q)),
    decreases n,
{
    let w = choose|w: i32| edges.contains((p, w)) && reach_n(edges, w, q, (n - 1) as nat);
    if n == 1 {
        assert(w == q);
        assert(edges.contains((p, q)));
    } else {
        lemma_reach_endpoints(edges, w, q, (n - 1) as nat);
    }
}

/// A non-trivial path that may use the extra edge `(a, b)` decomposes: either
/// it avoids the edge entirely, or it reaches `a` first (unless it starts
/// there) and continues from `b` (unless it ends there), on old edges alone.
pub proof fn lemma_reach_insert_split(
    edges: Set<(i32, i32)>,
    a: i32,
    b: i32,
    p: i32,
    q: i32,
    n: nat,
)
    requires
        1 <= n,
        reach_n(edges.insert((a, b)), p, q, n),
    ensures
        eps_reaches(edges, p, q) || ((p == a || eps_reaches(edges, p, a)) && (q == b
            || eps_reaches(edges, b, q))),
    decreases n,
{
    let e2 = edges.insert((a, b));
    let m = choose|m: i32| e2.contains((p, m)) && reach_n(e2, m, q, (n - 1) as nat);
    if n == 1 {
        assert(m == q);
        if edges.contains((p, q)) {
            assert(reach_n(edges, q, q, 0));
            assert(reach_n(edges, p, q, 1));
            assert(eps_reaches(edges, p, q));
        } else {
            assert(p == a && q == b);
        }
    } else {
        lemma_reach_insert_split(edges, a, b, m, q, (n - 1) as nat);
        if edges.contains((p, m)) {
            assert(reach_n(edges, m, m, 0));
            assert(reach_n(edges, p, m, 1));
            if eps_reaches(edges, m, q) {
                lemma_reaches_trans(edges, p, m, q);
            } else {
                if m == a {
                    assert(eps_reaches(edges, p, a));
                } else {
                    assert(eps_reaches(edges, m, a));
                    lemma_reaches_trans(edges, p, m, a);
                }
            }
        } else {
            assert(p == a && m == b);
        }
    }
}

/// Inserting the edge `(a, b)` yields reachability exactly: the old paths,
/// plus every pair that reaches `a` (or starts at `a`) and is reached from
/// `b` (or ends at `b`).
pub proof fn lemma_reaches_insert(edges: Set<(i32, i32)>, a: i32, b: i32, p: i32, q: i32)
    ensures
        eps_reaches(edges.insert((a, b)), p, q) <==> (eps_reaches(edges, p, q) || ((p == a
            || eps_reaches(edges, p, a)) && (q == b || eps_reaches(edges, b, q)))),
{
    let e2 = edges.insert((a, b));
    if eps_reaches(e2, p, q) {
        let n = choose|n: nat| 1 <= n && reach_n(e2, p, q, n);
        lemma_reach_insert_split(edges, a, b, p, q, n);
    }
    if eps_reaches(edges, p, q) {
        let n = choose|n: nat| 1 <= n && reach_n(edges, p, q, n);
        lemma_reach_mono(edges, e2, p, q, n);
        assert(eps_reaches(e2, p, q));
    }
    if (p == a || eps_reaches(edges, p, a)) && (q == b || eps_reaches(edges, b, q)) {
        let i: nat = if p == a {
            0
        } else {
            let i0 = choose|i0: nat| 1 <= i0 && reach_n(edges, p, a, i0);
            lemma_reach_mono(edges, e2, p, a, i0);
            i0
        };
        assert(reach_n(e2, p, a, i));
        let j: nat = if q == b {
            0
        } else {
            let j0 = choose|j0: nat| 1 <= j0 && reach_n(edges, b, q, j0);
            lemma_reach_mono(edges, e2, b, q, j0);
            j0
        };
        assert(reach_n(e2, b, q, j));
        assert(e2.contains((a, b)) && reach_n(e2, b, q, j));
        assert(reach_n(e2, a, q, j + 1));
        lemma_reach_concat(e2, p, a, q, i, (j + 1) as nat);
        assert(reach_n(e2, p, q, i + j + 1));
        assert(eps_reaches(e2, p, q));
    }
}

/// With no edge out of `p`, nothing is reachable from `p`.
pub proof fn lemma_no_out_edge(edges: Set<(i32, i32)>, p: i32, q: i32)
    requires
        forall|m: i32| !edges.contains((p, m)),
    ensures
        !eps_reaches(edges, p, q),
{
    if eps_reaches(edges, p, q) {
        let n = choose|n: nat| 1 <= n && reach_n(edges, p, q, n);
        let m = choose|m: i32| edges.contains((p, m)) && reach_n(edges, m, q, (n - 1) as nat);
        assert(!edges.contains((p, m)));
    }
}

/// If a set of states contains `tgt` and is closed under taking direct
/// predecessors, it contains every state from which a path leads to `tgt`.
pub proof fn lemma_pred_closed(
    edges: Set<(i32, i32)>,
    vis: Set<i32>,
    tgt: i32,
    p: i32,
    n: nat,
)
    requires
        vis.contains(tgt),
        forall|x: i32, y: i32| vis.contains(y) && #[trigger] edges.contains((x, y))
            ==> vis.contains(x),
        reach_n(edges, p, tgt, n),
    ensures
        vis.contains(p),
    decreases n,
{
    if n == 0 {
    } else {
        let m = choose|m: i32| edges.contains((p, m)) && reach_n(edges, m, tgt, (n - 1) as nat);
        lemma_pred_closed(edges, vis, tgt, m, (n - 1) as nat);
        assert(vis.contains(m) && edges.contains((p, m)));
    }
}

} // verus!
