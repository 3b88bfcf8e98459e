//! Maze solvers.
use vstd::prelude::*;

use crate::reachability::{
    lemma_reach_flip, lemma_reach_in_closed_set, lemma_reach_refl, lemma_path_reach, reach,
};
use crate::{acc_adj, Maze, MazeSolver};

verus! {

broadcast use vstd::seq_lib::group_seq_properties, vstd::set::group_set_axioms;

/// Whether some record in `s` carries `k` as its key (first component).
pub(crate) open spec fn has_key<K>(s: Seq<(K, K)>, k: K) -> bool {
    exists|i: int| 0 <= i < s.len() && s[i].0 == k
}

/// Finds the record of `v` whose key is `*k`, if any.
fn find_key<M: Maze>(m: &M, v: &Vec<(M::Key, M::Key)>, k: &M::Key) -> (o: Option<usize>)
    ensures
        o is Some <==> has_key(v@, *k),
        o matches Some(fi) ==> fi < v@.len() && v@[fi as int].0 == *k,
{
    let mut i: usize = 0;
    while i < v.len()
        invariant
            i <= v.len(),
            forall|j: int| 0 <= j < i ==> v@[j].0 != *k,
        decreases v.len() - i,
    {
        if m.key_eq(&v[i].0, k) {
            return Some(i);
        }
        i += 1;
    }
    None
}

/// A maze solver that uses breadth-first search.
#[derive(Default)]
pub struct BreadthFirstSearch();

impl BreadthFirstSearch {
    /// Returns a new instance of `BreadthFirstSearch`.
    pub fn new() -> (r: Self) {
        BreadthFirstSearch()
    }
}

impl<M: Maze> MazeSolver<M> for BreadthFirstSearch {
    fn solve(&mut self, maze: &M, start: &M::Key, goal: &M::Key) -> (r: Vec<M::Key>) {
        let ghost ar = acc_adj(*maze);
        let ghost start0 = *start;
        let ghost goal0 = *goal;

        if maze.key_eq(start, goal) {
            let mut r: Vec<M::Key> = Vec::new();
            r.push(maze.key_clone(goal));
            proof {
                lemma_reach_refl(ar, start0);
                assert(r@ =~= seq![goal0]);
            }
            return r;
        }
        let ghost nodesg = maze.spec_nodes().insert(goal0);
        proof {
            maze.laws(goal0, goal0);
        }

        // Search from the goal, recording for each newly discovered node the
        // node it was discovered from, so that the path can be read off in
        // start-to-goal order.
        let mut accessed: Vec<(M::Key, M::Key)> = Vec::new();
        let mut queue: Vec<M::Key> = Vec::new();
        let mut head: usize = 0;
        let mut solved = false;
        queue.push(maze.key_clone(goal));

        while head < queue.len() && !solved
            invariant
                ar == acc_adj(*maze),
                start0 == *start,
                goal0 == *goal,
                start0 != goal0,
                nodesg == maze.spec_nodes().insert(goal0),
                nodesg.finite(),
                head <= queue@.len(),
                forall|i: int| 0 <= i < accessed@.len() ==> ar(
                    #[trigger] accessed@[i].0,
                    accessed@[i].1,
                ) && ar(accessed@[i].1, accessed@[i].0),
                forall|i: int| 0 <= i < accessed@.len() ==> (#[trigger] accessed@[i].1) == goal0
                    || (exists|j: int| 0 <= j < i && accessed@[j].0 == accessed@[i].1),
                forall|i: int, j: int| 0 <= i < j < accessed@.len() ==> (
                #[trigger] accessed@[i].0) != (#[trigger] accessed@[j].0),
                forall|p: int| 0 <= p < queue@.len() ==> (#[trigger] queue@[p]) == goal0
                    || has_key(accessed@, queue@[p]),
                forall|p: int, n: M::Key| 0 <= p < head && #[trigger] ar(queue@[p], n) ==> has_key(
                    accessed@,
                    n,
                ) || n == goal0,
                !solved ==> queue@.contains(goal0),
                !solved ==> (forall|k: M::Key| has_key(accessed@, k)
                    ==> #[trigger] queue@.contains(k)),
                !solved ==> !has_key(accessed@, start0),
                solved ==> has_key(accessed@, start0),
            decreases 2 * nodesg.difference(Set::new(|k: M::Key| has_key(accessed@, k))).len() + (
            queue@.len() - head),
        {
            let ghost accessed0 = accessed@;
            let ghost queue0 = queue@;
            let node = maze.key_clone(&queue[head]);
            let neigh = maze.neighbours(&node);
            let mut j: usize = 0;
            while j < neigh.len() && !solved
                invariant
                    ar == acc_adj(*maze),
                    start0 == *start,
                    goal0 == *goal,
                    start0 != goal0,
                    nodesg == maze.spec_nodes().insert(goal0),
                    nodesg.finite(),
                    j <= neigh@.len(),
                    head < queue@.len(),
                    queue@[head as int] == node,
                    forall|k: M::Key| #[trigger] neigh@.contains(k) <==> ar(node, k),
                    forall|i: int| 0 <= i < accessed@.len() ==> ar(
                        #[trigger] accessed@[i].0,
                        accessed@[i].1,
                    ) && ar(accessed@[i].1, accessed@[i].0),
                    forall|i: int| 0 <= i < accessed@.len() ==> (#[trigger] accessed@[i].1)
                        == goal0 || (exists|j2: int| 0 <= j2 < i && accessed@[j2].0
                        == accessed@[i].1),
                    forall|i: int, j2: int| 0 <= i < j2 < accessed@.len() ==> (
                    #[trigger] accessed@[i].0) != (#[trigger] accessed@[j2].0),
                    forall|p: int| 0 <= p < queue@.len() ==> (#[trigger] queue@[p]) == goal0
                        || has_key(accessed@, queue@[p]),
                    forall|p: int, n: M::Key| 0 <= p < head && #[trigger] ar(queue@[p], n)
                        ==> has_key(accessed@, n) || n == goal0,
                    !solved ==> queue@.contains(goal0),
                    !solved ==> (forall|k: M::Key| has_key(accessed@, k)
                        ==> #[trigger] queue@.contains(k)),
                    !solved ==> !has_key(accessed@, start0),
                    solved ==> has_key(accessed@, start0),
                    forall|n: M::Key| #[trigger] neigh@.subrange(0, j as int).contains(n)
                        ==> has_key(accessed@, n) || n == goal0,
                    2 * nodesg.difference(Set::new(|k: M::Key| has_key(accessed@, k))).len() + (
                    queue@.len() - queue0.len()) <= 2 * nodesg.difference(
                        Set::new(|k: M::Key| has_key(accessed0, k)),
                    ).len(),
                    solved ==> 2 * nodesg.difference(
                        Set::new(|k: M::Key| has_key(accessed@, k)),
                    ).len() + (queue@.len() - queue0.len()) <= 2 * nodesg.difference(
                        Set::new(|k: M::Key| has_key(accessed0, k)),
                    ).len() - 2,
                decreases neigh@.len() - j,
            {
                let ghost acc_before = accessed@;
                let ghost keys_before = Set::new(|k: M::Key| has_key(acc_before, k));
                assert(neigh@.subrange(0, j + 1 as int) == neigh@.subrange(0, j as int).push(
                    neigh@[j as int],
                ));
                if !find_key(maze, &accessed, &neigh[j]).is_some() {
                    let n = maze.key_clone(&neigh[j]);
                    proof {
                        assert(neigh@.contains(n));
                        assert(ar(node, n));
                        maze.laws(node, n);
                        assert(nodesg.contains(n));
                        nodesg.lemma_set_insert_diff_decreases(keys_before, n);
                    }
                    accessed.push((n, maze.key_clone(&node)));
                    proof {
                        assert(forall|i: int| 0 <= i < acc_before.len()
                            ==> accessed@[i] == acc_before[i]);
                        assert(accessed@[accessed@.len() - 1].0 == neigh@[j as int]);
                        assert forall|k: M::Key| #[trigger] has_key(accessed@, k) implies has_key(
                            acc_before,
                            k,
                        ) || k == neigh@[j as int] by {
                            let i = choose|i: int| 0 <= i < accessed@.len() && accessed@[i].0 == k;
                            if i < acc_before.len() {
                                assert(acc_before[i].0 == k);
                            }
                        }
                        assert(Set::new(|k: M::Key| has_key(accessed@, k)) =~= keys_before.insert(
                            neigh@[j as int],
                        ));
                        assert(node == goal0 || has_key(acc_before, node));
                    }
                    if maze.key_eq(&neigh[j], start) {
                        solved = true;
                    } else {
                        queue.push(maze.key_clone(&neigh[j]));
                    }
                }
                j += 1;
            }
            proof {
                assert(neigh@.subrange(0, neigh@.len() as int) == neigh@);
                if !solved {
                    assert forall|n: M::Key| #[trigger] ar(node, n) implies has_key(accessed@, n)
                        || n == goal0 by {
                        assert(neigh@.contains(n));
                        assert(neigh@.subrange(0, neigh@.len() as int).contains(n));
                    }
                }
            }
            if !solved {
                head += 1;
            }
        }

        if solved {
            // Walk the discovered-from chain forward from the start until the
            // goal is reached; the recorded indices strictly decrease, so the
            // walk terminates and never repeats a node.
            let mut path: Vec<M::Key> = Vec::new();
            path.push(maze.key_clone(start));
            let mut current = maze.key_clone(start);
            let ghost fi0 = choose|i: int| 0 <= i < accessed@.len() && accessed@[i].0 == start0;
            let ghost mut cur_idx: int = fi0;
            let ghost mut idxs: Seq<int> = Seq::empty();
            while !maze.key_eq(&current, goal)
                invariant
                    ar == acc_adj(*maze),
                    start0 == *start,
                    goal0 == *goal,
                    path@.len() >= 1,
                    path@[0] == start0,
                    path@[path@.len() - 1] == current,
                    forall|t: int| 0 <= t < path@.len() - 1 ==> #[trigger] ar(
                        path@[t],
                        path@[t + 1],
                    ),
                    forall|t: int| 0 <= t < path@.len() - 1 ==> (#[trigger] path@[t]) != goal0,
                    idxs.len() == path@.len() - 1,
                    forall|t: int| 0 <= t < idxs.len() ==> 0 <= #[trigger] idxs[t]
                        < accessed@.len() && accessed@[idxs[t]].0 == path@[t],
                    forall|t1: int, t2: int| 0 <= t1 < t2 < idxs.len() ==> #[trigger] idxs[t1]
                        > #[trigger] idxs[t2],
                    forall|i: int| 0 <= i < accessed@.len() ==> ar(
                        #[trigger] accessed@[i].0,
                        accessed@[i].1,
                    ) && ar(accessed@[i].1, accessed@[i].0),
                    forall|i: int| 0 <= i < accessed@.len() ==> (#[trigger] accessed@[i].1)
                        == goal0 || (exists|j: int| 0 <= j < i && accessed@[j].0
                        == accessed@[i].1),
                    forall|i: int, j: int| 0 <= i < j < accessed@.len() ==> (
                    #[trigger] accessed@[i].0) != (#[trigger] accessed@[j].0),
                    current != goal0 ==> (0 <= cur_idx < accessed@.len() && accessed@[cur_idx].0
                        == current && (idxs.len() > 0 ==> cur_idx < idxs[idxs.len() - 1])),
                decreases cur_idx + 1,
            {
                let fi = find_key(maze, &accessed, &current).unwrap();
                proof {
                    assert(has_key(accessed@, current));
                    assert(fi as int == cur_idx);
                }
                let next = maze.key_clone(&accessed[fi].1);
                proof {
                    assert(ar(current, next));
                }
                path.push(maze.key_clone(&accessed[fi].1));
                proof {
                    idxs = idxs.push(cur_idx);
                    if next == goal0 {
                        cur_idx = cur_idx - 1;
                    } else {
                        let nj = choose|j: int| 0 <= j < fi as int && accessed@[j].0 == next;
                        cur_idx = nj;
                    }
                }
                current = next;
            }
            proof {
                assert(current == goal0);
                assert(path@[path@.len() - 1] == goal0);
                assert(path@.no_duplicates()) by {
                    assert forall|p: int, q: int| 0 <= p < q < path@.len() implies path@[p]
                        != path@[q] by {
                        if q < path@.len() - 1 {
                            assert(accessed@[idxs[p]].0 == path@[p]);
                            assert(accessed@[idxs[q]].0 == path@[q]);
                            assert(idxs[p] > idxs[q]);
                        }
                    }
                }
                lemma_path_reach(ar, path@);
                assert forall|i: int| 0 <= i < path@.len() - 1 implies #[trigger] maze
                    .spec_adjacent(path@[i], path@[i + 1]) && !maze.spec_wall(
                    path@[i],
                    path@[i + 1],
                ) by {
                    assert(ar(path@[i], path@[i + 1]));
                }
            }
            path
        } else {
            let r: Vec<M::Key> = Vec::new();
            proof {
                let s = Set::new(|k: M::Key| has_key(accessed@, k)).insert(goal0);
                assert(s.contains(goal0));
                assert forall|x: M::Key, y: M::Key| s.contains(x) && #[trigger] ar(
                    x,
                    y,
                ) implies s.contains(y) by {
                    assert(queue@.contains(x));
                    let p = choose|p: int| 0 <= p < queue@.len() && queue@[p] == x;
                    assert(ar(queue@[p], y));
                }
                assert(!s.contains(start0));
                assert forall|x: M::Key, y: M::Key| #[trigger] ar(x, y) == ar(y, x) by {
                    maze.laws(x, y);
                }
                if reach(ar, start0, goal0) {
                    lemma_reach_flip(ar, start0, goal0);
                    lemma_reach_in_closed_set(ar, s, goal0, start0);
                }
            }
            r
        }
    }
}

} // verus!
