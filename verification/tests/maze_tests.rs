use maze_traits::generators::DepthFirstSearch;
use maze_traits::mazes::{DisconnectedPair, SquareGrid};
use maze_traits::solvers::BreadthFirstSearch;
use maze_traits::{Maze, MazeGeneratable, MazeGenerator, MazeMut, MazeSolver};

fn is_valid_path(
    m: &SquareGrid,
    path: &Vec<(usize, usize)>,
    start: (usize, usize),
    goal: (usize, usize),
) -> bool {
    if path.is_empty() {
        return false;
    }
    if path[0] != start || path[path.len() - 1] != goal {
        return false;
    }
    for i in 0..path.len() - 1 {
        if m.has_wall(&path[i], &path[i + 1]) != Some(false) {
            return false;
        }
        for j in i + 1..path.len() {
            if path[i] == path[j] {
                return false;
            }
        }
    }
    true
}

#[test]
fn wall_queries_are_symmetric() {
    let mut m = SquareGrid::new(3, 3);
    assert_eq!(m.has_wall(&(0, 0), &(0, 1)), Some(true));
    assert_eq!(m.has_wall(&(0, 1), &(0, 0)), Some(true));
    m.remove_wall(&(0, 0), &(0, 1));
    assert_eq!(m.has_wall(&(0, 0), &(0, 1)), Some(false));
    assert_eq!(m.has_wall(&(0, 1), &(0, 0)), Some(false));
    m.remove_wall(&(2, 1), &(1, 1));
    assert_eq!(m.has_wall(&(1, 1), &(2, 1)), Some(false));
    assert_eq!(m.has_wall(&(2, 1), &(1, 1)), Some(false));
}

#[test]
fn non_adjacent_pairs_give_no_result() {
    let mut m = SquareGrid::new(3, 3);
    assert_eq!(m.has_wall(&(0, 0), &(1, 1)), None);
    assert_eq!(m.has_wall(&(0, 0), &(0, 2)), None);
    assert_eq!(m.has_wall(&(0, 0), &(0, 0)), None);
    assert_eq!(m.has_wall(&(0, 0), &(7, 7)), None);
    assert_eq!(m.add_wall(&(0, 0), &(1, 1)), None);
    assert_eq!(m.remove_wall(&(0, 0), &(2, 0)), None);
    assert_eq!(m.add_wall(&(5, 5), &(5, 6)), None);
}

#[test]
fn mutators_return_previous_state() {
    let mut m = SquareGrid::new(2, 2);
    assert_eq!(m.remove_wall(&(0, 0), &(0, 1)), Some(true));
    assert_eq!(m.remove_wall(&(0, 0), &(0, 1)), Some(false));
    assert_eq!(m.add_wall(&(0, 0), &(0, 1)), Some(false));
    assert_eq!(m.add_wall(&(0, 0), &(0, 1)), Some(true));
}

#[test]
fn add_all_walls_resets_every_edge() {
    let mut m = SquareGrid::new(3, 2);
    m.remove_wall(&(0, 0), &(0, 1));
    m.remove_wall(&(1, 0), &(2, 0));
    m.add_all_walls();
    for (a, b) in m.possible_walls() {
        assert_eq!(m.has_wall(&a, &b), Some(true));
        assert_eq!(m.has_wall(&b, &a), Some(true));
    }
}

#[test]
fn possible_walls_lists_each_edge_once() {
    let m = SquareGrid::new(2, 2);
    let walls = m.possible_walls();
    assert_eq!(walls.len(), 4);
    for (a, b) in &walls {
        assert!(m.has_wall(a, b).is_some());
    }
    for i in 0..walls.len() {
        for j in 0..walls.len() {
            if i != j {
                let (a, b) = walls[i];
                let (c, d) = walls[j];
                assert!(!((a, b) == (c, d) || (a, b) == (d, c)));
            }
        }
    }
}

#[test]
fn nodes_and_node_count_agree() {
    let m = SquareGrid::new(3, 4);
    let nodes = m.nodes();
    assert_eq!(nodes.len(), 12);
    assert_eq!(m.node_count(), 12);
    assert!(nodes.contains(&(2, 3)));
    assert!(!nodes.contains(&(3, 0)));
}

#[test]
fn adjacent_of_invalid_key_is_empty() {
    let m = SquareGrid::new(2, 2);
    assert!(m.adjacent(&(2, 0)).is_empty());
    assert!(m.adjacent(&(0, 5)).is_empty());
    let mid = SquareGrid::new(3, 3);
    let adj = mid.adjacent(&(1, 1));
    assert_eq!(adj.len(), 4);
    for k in [(0, 1), (2, 1), (1, 0), (1, 2)] {
        assert!(adj.contains(&k));
    }
}

#[test]
fn neighbours_follow_wall_state() {
    let mut m = SquareGrid::new(2, 2);
    assert!(m.neighbours(&(0, 0)).is_empty());
    m.remove_wall(&(0, 0), &(1, 0));
    let n = m.neighbours(&(0, 0));
    assert_eq!(n, vec![(1, 0)]);
}

#[test]
fn single_cell_grid() {
    let mut m = SquareGrid::new(1, 1);
    let nodes = m.nodes();
    assert_eq!(nodes, vec![(0, 0)]);
    let generated = DepthFirstSearch::new().generate_from_seed(&mut m, &(0, 0), &(0, 0), [7u8; 32]);
    assert!(generated);
    let path = BreadthFirstSearch::new().solve(&m, &(0, 0), &(0, 0));
    assert_eq!(path, vec![(0, 0)]);
}

#[test]
fn two_by_two_with_one_opening() {
    let mut m = SquareGrid::new(2, 2);
    m.add_all_walls();
    m.remove_wall(&(0, 0), &(0, 1));
    let mut solver = BreadthFirstSearch::new();
    let path = solver.solve(&m, &(0, 0), &(0, 1));
    assert_eq!(path, vec![(0, 0), (0, 1)]);
    let unreachable = solver.solve(&m, &(0, 0), &(1, 1));
    assert!(unreachable.is_empty());
}

#[test]
fn solver_finds_shortest_route() {
    // Every wall removed: many routes exist; the solver must return one of
    // minimal length.
    let mut m = SquareGrid::new(2, 2);
    for (a, b) in m.possible_walls() {
        m.remove_wall(&a, &b);
    }
    let path = BreadthFirstSearch::new().solve(&m, &(0, 0), &(1, 1));
    assert_eq!(path.len(), 3);
    assert!(is_valid_path(&m, &path, (0, 0), (1, 1)));

    let mut line = SquareGrid::new(1, 3);
    for (a, b) in line.possible_walls() {
        line.remove_wall(&a, &b);
    }
    let straight = BreadthFirstSearch::new().solve(&line, &(0, 0), &(0, 2));
    assert_eq!(straight, vec![(0, 0), (0, 1), (0, 2)]);
}

#[test]
fn generate_connects_start_to_goal() {
    let mut m = SquareGrid::new(5, 7);
    let generated = DepthFirstSearch::new().generate_from_seed(
        &mut m,
        &(0, 0),
        &(4, 6),
        [21u8; 32],
    );
    assert!(generated);
    let path = BreadthFirstSearch::new().solve(&m, &(0, 0), &(4, 6));
    assert!(is_valid_path(&m, &path, (0, 0), (4, 6)));
}

#[test]
fn generate_without_seed_still_connects() {
    let mut m = SquareGrid::new(4, 4);
    let generated = DepthFirstSearch::new().generate(&mut m, &(3, 0), &(0, 3));
    assert!(generated);
    let path = BreadthFirstSearch::new().solve(&m, &(3, 0), &(0, 3));
    assert!(is_valid_path(&m, &path, (3, 0), (0, 3)));
}

#[test]
fn equal_seeds_give_equal_mazes() {
    let seed = [3u8; 32];
    let mut m1 = SquareGrid::new(8, 6);
    let mut m2 = SquareGrid::new(8, 6);
    DepthFirstSearch::new().generate_from_seed(&mut m1, &(0, 0), &(7, 5), seed);
    DepthFirstSearch::new().generate_from_seed(&mut m2, &(0, 0), &(7, 5), seed);
    let none: Vec<(usize, usize)> = Vec::new();
    assert_eq!(m1.to_string_with_keys(&none), m2.to_string_with_keys(&none));
    for (a, b) in m1.possible_walls() {
        assert_eq!(m1.has_wall(&a, &b), m2.has_wall(&a, &b));
    }
}

#[test]
fn disconnected_topology_fails_to_generate() {
    let mut m = DisconnectedPair::new();
    assert_eq!(m.nodes(), vec![false, true]);
    assert!(m.adjacent(&false).is_empty());
    assert_eq!(m.has_wall(&false, &true), None);
    let generated = DepthFirstSearch::new().generate_from_seed(&mut m, &false, &true, [0u8; 32]);
    assert!(!generated);
    let path = BreadthFirstSearch::new().solve(&m, &false, &true);
    assert!(path.is_empty());
}

#[test]
fn rendering_marks_path_cells() {
    let m = SquareGrid::new(1, 1);
    let none: Vec<(usize, usize)> = Vec::new();
    assert_eq!(m.to_string_with_keys(&none), "+---+\n|   |\n+---+\n");
    assert_eq!(m.to_string_with_keys(&vec![(0, 0)]), "+---+\n| * |\n+---+\n");

    let mut grid = SquareGrid::new(2, 2);
    grid.remove_wall(&(0, 0), &(0, 1));
    grid.remove_wall(&(0, 1), &(1, 1));
    let rendered = grid.to_string_with_keys(&vec![(0, 0), (0, 1), (1, 1), (9, 9)]);
    assert_eq!(
        rendered,
        "+---+---+\n| *   * |\n+---+   +\n|   | * |\n+---+---+\n"
    );
}
