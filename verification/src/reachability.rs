//! Reachability along an abstract step relation.
//!
//! The generator and the solver both argue about which nodes can be reached
//! from a given node: the generator along the static adjacency relation, the
//! solver along the accessible (adjacent and unwalled) relation. The
//! definitions and lemmas here are shared by both.
use vstd::prelude::*;

verus! {

/// `b` can be reached from `a` in at most `n` steps of the relation `r`.
pub open spec fn reach_n<K>(r: spec_fn(K, K) -> bool, a: K, b: K, n: nat) -> bool
    decreases n,
{
    a == b || (n > 0 && exists|c: K| #[trigger] r(a, c) && reach_n(r, c, b, (n - 1) as nat))
}

/// `b` can be reached from `a` by some finite chain of steps of `r`.
pub open spec fn reach<K>(r: spec_fn(K, K) -> bool, a: K, b: K) -> bool {
    exists|n: nat| reach_n(r, a, b, n)
}

/// Every node reaches itself.
pub proof fn lemma_reach_refl<K>(r: spec_fn(K, K) -> bool, a: K)
    ensures
        reach(r, a, a),
{
    assert(reach_n(r, a, a, 0));
}

proof fn lemma_reach_n_step<K>(r: spec_fn(K, K) -> bool, a: K, b: K, c: K, n: nat)
    requires
        reach_n(r, a, b, n),
        r(b, c),
    ensures
        reach_n(r, a, c, n + 1),
    decreases n,
{
    if a == b {
        assert(reach_n(r, c, c, n));
        assert(r(a, c) && reach_n(r, c, c, ((n + 1) - 1) as nat));
    } else {
        let d = choose|d: K| #[trigger] r(a, d) && reach_n(r, d, b, (n - 1) as nat);
        lemma_reach_n_step(r, d, b, c, (n - 1) as nat);
        assert(r(a, d) && reach_n(r, d, c, ((n + 1) - 1) as nat));
    }
}

/// A chain extended by one further step is still a chain.
pub proof fn lemma_reach_step<K>(r: spec_fn(K, K) -> bool, a: K, b: K, c: K)
    requires
        reach(r, a, b),
        r(b, c),
    ensures
        reach(r, a, c),
{
    let n = choose|n: nat| reach_n(r, a, b, n);
    lemma_reach_n_step(r, a, b, c, n);
}

proof fn lemma_reach_n_mono<K>(r1: spec_fn(K, K) -> bool, r2: spec_fn(K, K) -> bool, a: K, b: K, n: nat)
    requires
        reach_n(r1, a, b, n),
        forall|x: K, y: K| #[trigger] r1(x, y) ==> r2(x, y),
    ensures
        reach_n(r2, a, b, n),
    decreases n,
{
    if a != b {
        let c = choose|c: K| #[trigger] r1(a, c) && reach_n(r1, c, b, (n - 1) as nat);
        lemma_reach_n_mono(r1, r2, c, b, (n - 1) as nat);
        assert(r2(a, c) && reach_n(r2, c, b, (n - 1) as nat));
    }
}

/// Whatever a relation reaches, a pointwise larger relation reaches as well.
pub proof fn lemma_reach_mono<K>(r1: spec_fn(K, K) -> bool, r2: spec_fn(K, K) -> bool, a: K, b: K)
    requires
        reach(r1, a, b),
        forall|x: K, y: K| #[trigger] r1(x, y) ==> r2(x, y),
    ensures
        reach(r2, a, b),
{
    let n = choose|n: nat| reach_n(r1, a, b, n);
    lemma_reach_n_mono(r1, r2, a, b, n);
}

proof fn lemma_reach_n_in_closed_set<K>(r: spec_fn(K, K) -> bool, s: Set<K>, a: K, b: K, n: nat)
    requires
        s.contains(a),
        forall|x: K, y: K| s.contains(x) && #[trigger] r(x, y) ==> s.contains(y),
        reach_n(r, a, b, n),
    ensures
        s.contains(b),
    decreases n,
{
    if a != b {
        let c = choose|c: K| #[trigger] r(a, c) && reach_n(r, c, b, (n - 1) as nat);
        assert(s.contains(c));
        lemma_reach_n_in_closed_set(r, s, c, b, (n - 1) as nat);
    }
}

/// A set that contains `a` and is closed under single steps contains
/// everything reachable from `a`.
pub proof fn lemma_reach_in_closed_set<K>(r: spec_fn(K, K) -> bool, s: Set<K>, a: K, b: K)
    requires
        s.contains(a),
        forall|x: K, y: K| s.contains(x) && #[trigger] r(x, y) ==> s.contains(y),
        reach(r, a, b),
    ensures
        s.contains(b),
{
    let n = choose|n: nat| reach_n(r, a, b, n);
    lemma_reach_n_in_closed_set(r, s, a, b, n);
}

proof fn lemma_reach_n_flip<K>(r: spec_fn(K, K) -> bool, a: K, b: K, n: nat)
    requires
        reach_n(r, a, b, n),
        forall|x: K, y: K| #[trigger] r(x, y) == r(y, x),
    ensures
        reach_n(r, b, a, n),
    decreases n,
{
    if a != b {
        let c = choose|c: K| #[trigger] r(a, c) && reach_n(r, c, b, (n - 1) as nat);
        lemma_reach_n_flip(r, c, b, (n - 1) as nat);
        assert(r(c, a));
        lemma_reach_n_step(r, b, c, a, (n - 1) as nat);
    }
}

/// Over a symmetric relation, reachability is symmetric.
pub proof fn lemma_reach_flip<K>(r: spec_fn(K, K) -> bool, a: K, b: K)
    requires
        reach(r, a, b),
        forall|x: K, y: K| #[trigger] r(x, y) == r(y, x),
    ensures
        reach(r, b, a),
{
    let n = choose|n: nat| reach_n(r, a, b, n);
    lemma_reach_n_flip(r, a, b, n);
}

proof fn lemma_reach_trans_n<K>(r: spec_fn(K, K) -> bool, a: K, b: K, c: K, m: nat)
    requires
        reach(r, a, b),
        reach_n(r, b, c, m),
    ensures
        reach(r, a, c),
    decreases m,
{
    if b != c {
        let d = choose|d: K| #[trigger] r(b, d) && reach_n(r, d, c, (m - 1) as nat);
        lemma_reach_step(r, a, b, d);
        lemma_reach_trans_n(r, a, d, c, (m - 1) as nat);
    }
}

/// Chains compose: reachability is transitive.
pub proof fn lemma_reach_trans<K>(r: spec_fn(K, K) -> bool, a: K, b: K, c: K)
    requires
        reach(r, a, b),
        reach(r, b, c),
    ensures
        reach(r, a, c),
{
    let m = choose|m: nat| reach_n(r, b, c, m);
    lemma_reach_trans_n(r, a, b, c, m);
}

/// A non-empty sequence whose consecutive elements are related by `r` is a
/// witness that its last element is reachable from its first.
pub proof fn lemma_path_reach<K>(r: spec_fn(K, K) -> bool, p: Seq<K>)
    requires
        p.len() > 0,
        forall|i: int| 0 <= i < p.len() - 1 ==> #[trigger] r(p[i], p[i + 1]),
    ensures
        reach(r, p[0], p[p.len() - 1]),
    decreases p.len(),
{
    if p.len() == 1 {
        lemma_reach_refl(r, p[0]);
    } else {
        let q = p.drop_last();
        assert(forall|i: int| 0 <= i < q.len() - 1 ==> #[trigger] r(q[i], q[i + 1]));
        lemma_path_reach(r, q);
        assert(r(p[p.len() - 2], p[(p.len() - 2) + 1]));
        lemma_reach_step(r, p[0], p[p.len() - 2], p[p.len() - 1]);
    }
}

} // verus!
