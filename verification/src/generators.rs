//! Maze generators.
use vstd::prelude::*;

use rand::Rng;
use rand::SeedableRng;

use crate::reachability::{
    lemma_reach_in_closed_set, lemma_reach_mono, lemma_reach_refl, lemma_reach_step, reach,
};
use crate::{acc_adj, same_topology, topo_adj, Maze, MazeGeneratable, MazeGenerator};

verus! {

broadcast use vstd::seq_lib::group_seq_properties, vstd::set::group_set_axioms;

/// Whether `v@` holds `*k`, decided with the topology's key equality.
pub(crate) fn contains_key<M: Maze>(m: &M, v: &Vec<M::Key>, k: &M::Key) -> (r: bool)
    ensures
        r == v@.contains(*k),
{
    let mut i: usize = 0;
    while i < v.len()
        invariant
            i <= v.len(),
            forall|j: int| 0 <= j < i ==> v@[j] != *k,
        decreases v.len() - i,
    {
        if m.key_eq(&v[i], k) {
            return true;
        }
        i += 1;
    }
    proof {
        if v@.contains(*k) {
            let j = choose|j: int| 0 <= j < v@.len() && v@[j] == *k;
        }
    }
    false
}

/// The deterministic pseudo-random source the depth-first generator draws
/// from, declared for Verus.
#[verifier::external_type_specification]
#[verifier::external_body]
pub struct ExPcg64(rand_pcg::Pcg64);

/// The value drawn below `bound` by a Pcg64 that was built from `seed` and
/// that has already served draws with the bounds in `history`. The draw is a
/// function of these three alone; no more is assumed of it.
pub uninterp spec fn pcg_pick(seed: Seq<u8>, history: Seq<int>, bound: int) -> int;

/// A Pcg64 together with the seed it was built from and the bounds of the
/// draws served so far, so that contracts can state that equal seeds give
/// equal draws.
pub struct SeededRng {
    inner: rand_pcg::Pcg64,
    seed: Ghost<Seq<u8>>,
    history: Ghost<Seq<int>>,
}

impl SeededRng {
    /// The seed this source was built from.
    pub closed spec fn seed(&self) -> Seq<u8> {
        self.seed@
    }

    /// The bounds of the draws served so far, oldest first.
    pub closed spec fn history(&self) -> Seq<int> {
        self.history@
    }

    /// Returns a fresh source built from `seed`, with no draws served yet.
    pub fn from_seed(seed: [u8; 32]) -> (r: SeededRng)
        ensures
            r.seed() == seed@,
            r.history() == Seq::<int>::empty(),
    {
        SeededRng {
            inner: pcg_from_seed(seed),
            seed: Ghost(seed@),
            history: Ghost(Seq::empty()),
        }
    }

    /// Relies on rand::Rng::gen_range over rand_pcg::Pcg64: the range is
    /// non-empty, so the call returns a draw below `bound`, and both the
    /// sampling and the generator step are pure arithmetic, so the draw
    /// depends only on the seed and on the bounds of the earlier draws. The
    /// inner source is only ever built by `from_seed` and advanced here, so
    /// the two ghost fields describe its state exactly.
    #[verifier::external_body]
    pub fn pick(&mut self, bound: usize) -> (i: usize)
        requires
            bound > 0,
        ensures
            i < bound,
            i as int == pcg_pick(old(self).seed(), old(self).history(), bound as int),
            final(self).seed() == old(self).seed(),
            final(self).history() == old(self).history().push(bound as int),
    {
        let i = self.inner.gen_range(0u64..(bound as u64));
        i as usize
    }
}

/// Relies on rand::SeedableRng::from_seed for rand_pcg::Pcg64: seeding is
/// deterministic in the 32 seed bytes.
#[verifier::external_body]
fn pcg_from_seed(seed: [u8; 32]) -> rand_pcg::Pcg64 {
    rand_pcg::Pcg64::from_seed(seed)
}

/// Relies on rand::random: 32 fresh random bytes for the convenience entry
/// point that generates without a caller-supplied seed. Nothing is promised
/// of their values.
#[verifier::external_body]
pub(crate) fn random_seed() -> (s: [u8; 32]) {
    rand::random()
}

/// Generates a maze using randomized depth-first search.
pub struct DepthFirstSearch();

impl DepthFirstSearch {
    /// Returns a new depth-first-search based generator.
    pub fn new() -> (r: Self) {
        DepthFirstSearch()
    }
}

impl<M: MazeGeneratable> MazeGenerator<M> for DepthFirstSearch {
    fn generate_from_seed(
        &mut self,
        maze: &mut M,
        start: &M::Key,
        goal: &M::Key,
        seed: [u8; 32],
    ) -> (r: bool) {
        maze.add_all_walls();

        // All facts below are stated over the adjacency of the maze at entry;
        // wall mutation never changes it.
        let ghost tr = topo_adj(*old(maze));
        let ghost start0 = *start;
        let ghost nodes0 = old(maze).spec_nodes().insert(start0);
        proof {
            old(maze).laws(start0, start0);
            lemma_reach_refl(tr, start0);
        }

        let mut rng = SeededRng::from_seed(seed);
        let mut visited: Vec<M::Key> = Vec::new();
        let mut stack: Vec<M::Key> = Vec::new();
        stack.push(maze.key_clone(start));
        proof {
            lemma_reach_refl(acc_adj(*maze), start0);
        }

        while stack.len() > 0
            invariant
                tr == topo_adj(*old(maze)),
                start0 == *start,
                nodes0 == old(maze).spec_nodes().insert(start0),
                same_topology(*old(maze), *maze),
                forall|i: int| 0 <= i < stack@.len() ==> nodes0.contains(#[trigger] stack@[i]),
                forall|i: int| 0 <= i < stack@.len() ==> reach(tr, start0, #[trigger] stack@[i]),
                forall|i: int| 0 <= i < stack@.len() ==> reach(
                    acc_adj(*maze),
                    start0,
                    #[trigger] stack@[i],
                ),
                forall|v: M::Key| #[trigger] visited@.contains(v) ==> nodes0.contains(v),
                forall|v: M::Key| #[trigger] visited@.contains(v) ==> reach(tr, start0, v),
                forall|v: M::Key| #[trigger] visited@.contains(v) ==> reach(
                    acc_adj(*maze),
                    start0,
                    v,
                ),
                forall|v: M::Key| #[trigger] visited@.contains(v) ==> stack@.contains(v) || (
                forall|n: M::Key| #[trigger] tr(v, n) ==> visited@.contains(n)),
                visited@.contains(start0) || stack@.contains(start0),
                nodes0.finite(),
            decreases 2 * nodes0.difference(visited@.to_set()).len() + stack@.len() + 2 - 2 * (
            if stack@.len() > 0 && !visited@.contains(stack@.last()) {
                1int
            } else {
                0int
            }),
        {
            let ghost stack_at_entry = stack@;
            let ghost visited_at_entry = visited@;
            let current = stack.pop().unwrap();
            assert(stack_at_entry.contains(current)) by {
                assert(stack_at_entry[stack_at_entry.len() - 1] == current);
            }
            assert(forall|v: M::Key| #[trigger] stack_at_entry.contains(v) && v != current
                ==> stack@.contains(v)) by {
                assert forall|v: M::Key| #[trigger] stack_at_entry.contains(v) && v != current
                    implies stack@.contains(v) by {
                    let j = choose|j: int| 0 <= j < stack_at_entry.len() && stack_at_entry[j] == v;
                    assert(stack@[j] == v);
                }
            }

            if !contains_key(&*maze, &visited, &current) {
                proof {
                    nodes0.lemma_set_insert_diff_decreases(visited@.to_set(), current);
                    assert(visited@.push(current).to_set() =~= visited@.to_set().insert(current));
                }
                visited.push(maze.key_clone(&current));
            }
            assert(visited@.contains(current));
            assert(visited@.to_set().len() <= visited_at_entry.to_set().len() + 1
                && nodes0.difference(visited@.to_set()).len() <= nodes0.difference(
                visited_at_entry.to_set(),
            ).len()) by {
                assert(nodes0.difference(visited@.to_set()) <= nodes0.difference(
                    visited_at_entry.to_set(),
                ));
                vstd::set_lib::lemma_len_subset(
                    nodes0.difference(visited@.to_set()),
                    nodes0.difference(visited_at_entry.to_set()),
                );
            }

            let adj = maze.adjacent(&current);
            let mut cands: Vec<M::Key> = Vec::new();
            let mut i: usize = 0;
            while i < adj.len()
                invariant
                    i <= adj.len(),
                    forall|k: M::Key| #[trigger] adj@.contains(k) <==> maze.spec_adjacent(
                        current,
                        k,
                    ),
                    forall|k: M::Key| #[trigger] cands@.contains(k) <==> (adj@.subrange(
                        0,
                        i as int,
                    ).contains(k) && !visited@.contains(k)),
                decreases adj.len() - i,
            {
                assert(adj@.subrange(0, i + 1 as int) == adj@.subrange(0, i as int).push(
                    adj@[i as int],
                ));
                if !contains_key(&*maze, &visited, &adj[i]) {
                    cands.push(maze.key_clone(&adj[i]));
                }
                i += 1;
            }
            assert(adj@.subrange(0, adj@.len() as int) == adj@);

            if cands.len() == 0 {
                proof {
                    assert forall|n: M::Key| #[trigger] tr(current, n) implies visited@.contains(
                        n,
                    ) by {
                        assert(old(maze).spec_adjacent(current, n));
                        assert(maze.spec_adjacent(current, n));
                        assert(adj@.contains(n));
                        assert(!cands@.contains(n));
                    }
                }
            } else {
                let idx = rng.pick(cands.len());
                let chosen = maze.key_clone(&cands[idx]);
                assert(cands@.contains(chosen));
                assert(maze.spec_adjacent(current, chosen) && !visited@.contains(chosen));
                proof {
                    old(maze).laws(current, chosen);
                    assert(old(maze).spec_adjacent(current, chosen));
                    assert(tr(current, chosen));
                }
                let ghost m_before = *maze;
                maze.remove_wall(&current, &chosen);
                proof {
                    assert forall|x: M::Key, y: M::Key| #[trigger] acc_adj(m_before)(
                        x,
                        y,
                    ) implies acc_adj(*maze)(x, y) by {
                        assert(m_before.spec_adjacent(x, y) && !m_before.spec_wall(x, y));
                    }
                    assert forall|i2: int| 0 <= i2 < stack@.len() implies reach(
                        acc_adj(*maze),
                        start0,
                        #[trigger] stack@[i2],
                    ) by {
                        lemma_reach_mono(acc_adj(m_before), acc_adj(*maze), start0, stack@[i2]);
                    }
                    assert forall|v: M::Key| #[trigger] visited@.contains(v) implies reach(
                        acc_adj(*maze),
                        start0,
                        v,
                    ) by {
                        lemma_reach_mono(acc_adj(m_before), acc_adj(*maze), start0, v);
                    }
                    lemma_reach_step(tr, start0, current, chosen);
                    assert(acc_adj(*maze)(current, chosen));
                    lemma_reach_step(acc_adj(*maze), start0, current, chosen);
                }
                stack.push(current);
                stack.push(chosen);
            }
        }

        let found = contains_key(&*maze, &visited, goal);
        proof {
            let s = visited@.to_set();
            if reach(tr, start0, *goal) {
                assert(s.contains(start0));
                assert(forall|x: M::Key, y: M::Key| s.contains(x) && #[trigger] tr(x, y)
                    ==> s.contains(y));
                lemma_reach_in_closed_set(tr, s, start0, *goal);
            }
            assert forall|v: M::Key| #[trigger] reach(tr, start0, v) implies reach(
                acc_adj(*maze),
                start0,
                v,
            ) by {
                assert(s.contains(start0));
                lemma_reach_in_closed_set(tr, s, start0, v);
            }
        }
        found
    }
}

} // verus!
