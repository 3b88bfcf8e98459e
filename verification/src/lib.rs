//! Mazes modeled as graphs whose edges may or may not be blocked by a wall,
//! together with a randomized depth-first generator that carves a solvable
//! maze and a breadth-first solver that finds a path through one.
use vstd::prelude::*;

pub mod generators;
pub mod mazes;
pub mod reachability;
pub mod solvers;

verus! {

use crate::reachability::reach;

broadcast use vstd::seq_lib::group_seq_properties;

/// The static adjacency relation of a maze: which pairs of nodes share an
/// edge, whether or not that edge currently carries a wall.
pub open spec fn topo_adj<M: Maze>(m: M) -> spec_fn(M::Key, M::Key) -> bool {
    |a: M::Key, b: M::Key| m.spec_adjacent(a, b)
}

/// The accessibility relation of a maze: adjacent and not walled, so passage
/// is actually possible.
pub open spec fn acc_adj<M: Maze>(m: M) -> spec_fn(M::Key, M::Key) -> bool {
    |a: M::Key, b: M::Key| m.spec_adjacent(a, b) && !m.spec_wall(a, b)
}

/// Two maze values share one topology: the same nodes and the same adjacency.
/// Wall mutation preserves this; only wall state may differ.
pub open spec fn same_topology<M: Maze>(m1: M, m2: M) -> bool {
    &&& m1.spec_nodes() == m2.spec_nodes()
    &&& forall|a: M::Key, b: M::Key|
        #![trigger m1.spec_adjacent(a, b)]
        #![trigger m2.spec_adjacent(a, b)]
        m1.spec_adjacent(a, b) == m2.spec_adjacent(a, b)
}

/// `(a, b)` and `(k1, k2)` name the same unordered edge.
pub open spec fn same_edge<K>(a: K, b: K, k1: K, k2: K) -> bool {
    (a == k1 && b == k2) || (a == k2 && b == k1)
}

/// The base trait for a maze: nodes connected by edges, where each edge may
/// or may not be a wall.
pub trait Maze: Sized {
    /// Key type that identifies a node, for example a row/column pair for a
    /// grid maze.
    type Key;

    /// The set of all node keys of the topology.
    spec fn spec_nodes(&self) -> Set<Self::Key>;

    /// Whether two nodes are topologically adjacent. Static: wall mutation
    /// never changes it.
    spec fn spec_adjacent(&self, k1: Self::Key, k2: Self::Key) -> bool;

    /// Whether the edge between two nodes carries a wall. Meaningful only for
    /// adjacent pairs.
    spec fn spec_wall(&self, k1: Self::Key, k2: Self::Key) -> bool;

    /// The laws every topology obeys: the node set is finite, adjacency and
    /// wall state are symmetric, and adjacent keys are nodes.
    proof fn laws(&self, k1: Self::Key, k2: Self::Key)
        ensures
            self.spec_nodes().finite(),
            self.spec_adjacent(k1, k2) == self.spec_adjacent(k2, k1),
            self.spec_adjacent(k1, k2) ==> self.spec_wall(k1, k2) == self.spec_wall(k2, k1),
            self.spec_adjacent(k1, k2) ==> self.spec_nodes().contains(k1)
                && self.spec_nodes().contains(k2),
    ;

    /// Returns the keys of all nodes of the maze, each exactly once.
    fn nodes(&self) -> (r: Vec<Self::Key>)
        ensures
            r@.to_set() == self.spec_nodes(),
            r@.no_duplicates(),
    ;

    /// Returns all nodes adjacent to `key`, each exactly once; empty for a
    /// key that is not a node.
    fn adjacent(&self, key: &Self::Key) -> (r: Vec<Self::Key>)
        ensures
            forall|k: Self::Key| #[trigger] r@.contains(k) <==> self.spec_adjacent(*key, k),
            r@.no_duplicates(),
    ;

    /// Returns whether there is a wall between `k1` and `k2`, or `None` if
    /// the two keys are not adjacent.
    fn has_wall(&self, k1: &Self::Key, k2: &Self::Key) -> (r: Option<bool>)
        ensures
            r is Some <==> self.spec_adjacent(*k1, *k2),
            self.spec_adjacent(*k1, *k2) ==> r == Some(self.spec_wall(*k1, *k2)),
    ;

    /// Decides equality of two keys.
    fn key_eq(&self, k1: &Self::Key, k2: &Self::Key) -> (r: bool)
        ensures
            r <==> *k1 == *k2,
    ;

    /// Copies a key.
    fn key_clone(&self, k: &Self::Key) -> (r: Self::Key)
        ensures
            r == *k,
    ;

    /// Returns all adjacent nodes that are accessible from `key`: adjacent
    /// and not separated by a wall.
    fn neighbours(&self, key: &Self::Key) -> (r: Vec<Self::Key>)
        ensures
            forall|k: Self::Key| #[trigger] r@.contains(k)
                <==> self.spec_adjacent(*key, k) && !self.spec_wall(*key, k),
            r@.no_duplicates(),
    {
        let adj = self.adjacent(key);
        let mut out: Vec<Self::Key> = Vec::new();
        let mut i: usize = 0;
        while i < adj.len()
            invariant
                i <= adj.len(),
                forall|k: Self::Key| #[trigger] adj@.contains(k) <==> self.spec_adjacent(*key, k),
                adj@.no_duplicates(),
                forall|k: Self::Key| #[trigger] out@.contains(k)
                    <==> adj@.subrange(0, i as int).contains(k) && !self.spec_wall(*key, k),
                out@.no_duplicates(),
            decreases adj.len() - i,
        {
            let c = &adj[i];
            let ghost prefix = adj@.subrange(0, i as int);
            assert(adj@.subrange(0, i + 1 as int) == prefix.push(adj@[i as int]));
            assert(adj@.contains(adj@[i as int]));
            match self.has_wall(key, c) {
                Some(false) => {
                    assert(!prefix.contains(*c)) by {
                        if prefix.contains(*c) {
                            let j = choose|j: int| 0 <= j < prefix.len() && prefix[j] == *c;
                            assert(adj@[j] == adj@[i as int]);
                        }
                    }
                    let ghost out0 = out@;
                    out.push(self.key_clone(c));
                    assert(out@.no_duplicates()) by {
                        assert(!out0.contains(*c));
                        assert forall|p: int, q: int| 0 <= p < q < out@.len() implies out@[p]
                            != out@[q] by {
                            if q == out@.len() - 1 && out@[p] == out@[q] {
                                assert(out0.contains(out0[p]));
                            }
                        }
                    }
                }
                _ => {},
            }
            i += 1;
        }
        assert(adj@.subrange(0, adj@.len() as int) == adj@);
        out
    }

    /// The total number of nodes in the maze.
    fn node_count(&self) -> (r: usize)
        ensures
            r as nat == self.spec_nodes().len(),
    {
        let v = self.nodes();
        proof {
            v@.unique_seq_to_set();
        }
        v.len()
    }
}

/// A mutable maze: wall state can be changed edge by edge.
pub trait MazeMut: Maze {
    /// Adds a wall between `k1` and `k2`. Returns `None` if they are not
    /// adjacent, otherwise whether the wall already existed.
    fn add_wall(&mut self, k1: &Self::Key, k2: &Self::Key) -> (r: Option<bool>)
        ensures
            same_topology(*old(self), *final(self)),
            r is Some <==> old(self).spec_adjacent(*k1, *k2),
            old(self).spec_adjacent(*k1, *k2) ==> r == Some(old(self).spec_wall(*k1, *k2))
                && final(self).spec_wall(*k1, *k2) && final(self).spec_wall(*k2, *k1),
            forall|a: Self::Key, b: Self::Key|
                #![trigger old(self).spec_wall(a, b)]
                #![trigger final(self).spec_wall(a, b)]
                old(self).spec_adjacent(a, b) && !same_edge(a, b, *k1, *k2)
                    ==> final(self).spec_wall(a, b) == old(self).spec_wall(a, b),
    ;

    /// Removes the wall between `k1` and `k2`. Returns `None` if they are not
    /// adjacent, otherwise whether the wall existed before.
    fn remove_wall(&mut self, k1: &Self::Key, k2: &Self::Key) -> (r: Option<bool>)
        ensures
            same_topology(*old(self), *final(self)),
            r is Some <==> old(self).spec_adjacent(*k1, *k2),
            old(self).spec_adjacent(*k1, *k2) ==> r == Some(old(self).spec_wall(*k1, *k2))
                && !final(self).spec_wall(*k1, *k2) && !final(self).spec_wall(*k2, *k1),
            forall|a: Self::Key, b: Self::Key|
                #![trigger old(self).spec_wall(a, b)]
                #![trigger final(self).spec_wall(a, b)]
                old(self).spec_adjacent(a, b) && !same_edge(a, b, *k1, *k2)
                    ==> final(self).spec_wall(a, b) == old(self).spec_wall(a, b),
    ;
}

/// A maze that a generator can start from: it can be reset to the fully
/// walled state and can list its possible walls.
pub trait MazeGeneratable: MazeMut {
    /// Adds all possible walls, so that any two adjacent nodes are separated
    /// by a wall.
    fn add_all_walls(&mut self)
        ensures
            same_topology(*old(self), *final(self)),
            forall|a: Self::Key, b: Self::Key| final(self).spec_adjacent(a, b)
                ==> #[trigger] final(self).spec_wall(a, b),
    ;

    /// Lists every possible wall: each adjacent pair exactly once, in one
    /// order only.
    fn possible_walls(&self) -> (r: Vec<(Self::Key, Self::Key)>)
        ensures
            forall|a: Self::Key, b: Self::Key| #[trigger] self.spec_adjacent(a, b)
                <==> (r@.contains((a, b)) || r@.contains((b, a))),
            forall|i: int| 0 <= i < r@.len() ==> self.spec_adjacent(r@[i].0, r@[i].1),
            forall|i: int, j: int| 0 <= i < j < r@.len()
                ==> !same_edge(r@[i].0, r@[i].1, r@[j].0, r@[j].1),
    ;
}

/// On a connected topology the generator always succeeds and the solver then
/// finds a path: when every node of a maze can reach every other along bare
/// adjacency, and a carve has connected the start to everything it can reach
/// (which is what `MazeGenerator::generate_from_seed` guarantees of the maze
/// it leaves behind), the goal is reachable both in the topology, so that
/// generation reported success, and along the carved passages, so that
/// `MazeSolver::solve` returns a non-empty path.
pub proof fn lemma_connected_generate_solve<M: Maze>(
    m_topo: M,
    m_carved: M,
    start: M::Key,
    goal: M::Key,
)
    requires
        forall|a: M::Key, b: M::Key| m_topo.spec_nodes().contains(a)
            && m_topo.spec_nodes().contains(b) ==> #[trigger] reach(topo_adj(m_topo), a, b),
        m_topo.spec_nodes().contains(start),
        m_topo.spec_nodes().contains(goal),
        forall|v: M::Key| #[trigger] reach(topo_adj(m_topo), start, v) ==> reach(
            acc_adj(m_carved),
            start,
            v,
        ),
    ensures
        reach(topo_adj(m_topo), start, goal),
        reach(acc_adj(m_carved), start, goal),
{
    assert(reach(topo_adj(m_topo), start, goal));
    assert(reach(acc_adj(m_carved), start, goal));
}

/// The base trait for a maze solver.
pub trait MazeSolver<M: Maze> {
    /// Takes a maze, a start, and a goal, and returns the order of nodes to
    /// travel from start to goal: a walk along accessible edges without
    /// repeated nodes, empty exactly when the goal cannot be reached.
    fn solve(&mut self, maze: &M, start: &M::Key, goal: &M::Key) -> (r: Vec<M::Key>)
        ensures
            r@.len() > 0 <==> reach(acc_adj(*maze), *start, *goal),
            r@.len() > 0 ==> r@[0] == *start && r@[r@.len() - 1] == *goal,
            forall|i: int| 0 <= i < r@.len() - 1 ==> #[trigger] maze.spec_adjacent(r@[i], r@[i + 1])
                && !maze.spec_wall(r@[i], r@[i + 1]),
            r@.no_duplicates(),
            *start == *goal ==> r@ == seq![*goal],
    ;
}

/// The base trait for a maze generator.
pub trait MazeGenerator<M: MazeMut> {
    /// Takes a maze, a start, a goal, and a seed, and carves a maze that
    /// connects `start` to everything reachable from it in the topology.
    ///
    /// Returns whether `goal` was reached, which on a connected topology is
    /// always the case; false is possible only on disconnected topologies.
    fn generate_from_seed(
        &mut self,
        maze: &mut M,
        start: &M::Key,
        goal: &M::Key,
        seed: [u8; 32],
    ) -> (r: bool)
        ensures
            same_topology(*old(maze), *final(maze)),
            r == reach(topo_adj(*old(maze)), *start, *goal),
            forall|v: M::Key| #[trigger] reach(topo_adj(*old(maze)), *start, v)
                ==> reach(acc_adj(*final(maze)), *start, v),
    ;

    /// As `generate_from_seed`, with a freshly drawn random seed.
    fn generate(&mut self, maze: &mut M, start: &M::Key, goal: &M::Key) -> (r: bool)
        ensures
            same_topology(*old(maze), *final(maze)),
            r == reach(topo_adj(*old(maze)), *start, *goal),
            forall|v: M::Key| #[trigger] reach(topo_adj(*old(maze)), *start, v)
                ==> reach(acc_adj(*final(maze)), *start, v),
    {
        let seed = crate::generators::random_seed();
        self.generate_from_seed(maze, start, goal, seed)
    }
}

} // verus!
