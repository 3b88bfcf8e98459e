//! Concrete maze topologies.
use vstd::prelude::*;

use crate::reachability::{lemma_reach_refl, lemma_reach_step, lemma_reach_trans, reach};
use crate::{same_edge, same_topology, topo_adj, Maze, MazeGeneratable, MazeMut};
use vstd::string::StringExecFns;

verus! {

broadcast use vstd::seq_lib::group_seq_properties, vstd::set::group_set_axioms;

/// The node keys of a grid with the given extents: every pair of a row below
/// `rows` and a column below `cols`.
pub open spec fn grid_set(rows: int, cols: int) -> Set<(usize, usize)> {
    Set::new(|k: (usize, usize)| k.0 < rows && k.1 < cols)
}

/// The keys of one grid row: row `r`, every column below `cols`.
spec fn row_set(r: int, cols: int) -> Set<(usize, usize)> {
    Set::new(|k: (usize, usize)| k.0 == r && k.1 < cols)
}

proof fn lemma_row_set_finite(r: int, cols: int)
    requires
        0 <= r <= usize::MAX,
        0 <= cols <= usize::MAX,
    ensures
        row_set(r, cols).finite(),
        row_set(r, cols).len() == cols,
    decreases cols,
{
    if cols == 0 {
        assert(row_set(r, 0) =~= Set::<(usize, usize)>::empty());
    } else {
        lemma_row_set_finite(r, cols - 1);
        let k = (r as usize, (cols - 1) as usize);
        assert(row_set(r, cols) =~= row_set(r, cols - 1).insert(k));
        assert(!row_set(r, cols - 1).contains(k));
    }
}

/// A grid with the given extents has exactly `rows * cols` nodes.
pub proof fn lemma_grid_set_finite(rows: int, cols: int)
    requires
        0 <= rows <= usize::MAX,
        0 <= cols <= usize::MAX,
    ensures
        grid_set(rows, cols).finite(),
        grid_set(rows, cols).len() == rows * cols,
    decreases rows,
{
    if rows == 0 {
        assert(grid_set(0, cols) =~= Set::<(usize, usize)>::empty());
    } else {
        lemma_grid_set_finite(rows - 1, cols);
        lemma_row_set_finite(rows - 1, cols);
        assert(grid_set(rows, cols) =~= grid_set(rows - 1, cols) + row_set(rows - 1, cols));
        assert(grid_set(rows - 1, cols).disjoint(row_set(rows - 1, cols)));
        vstd::set_lib::lemma_set_disjoint_lens::<(usize, usize)>(
            grid_set(rows - 1, cols),
            row_set(rows - 1, cols),
        );
        assert((rows - 1) * cols + cols == rows * cols) by (nonlinear_arith);
    }
}

/// One rendered cell of a horizontal border: walled or open, then a corner.
spec fn border_cell(walled: bool) -> Seq<char> {
    if walled {
        seq!['-', '-', '-', '+']
    } else {
        seq![' ', ' ', ' ', '+']
    }
}

/// One rendered cell of a node row: a marker if the node is on the path,
/// then the right wall or an opening.
spec fn body_cell(walled: bool, marked: bool) -> Seq<char> {
    seq![' ', if marked { '*' } else { ' ' }, ' ', if walled { '|' } else { ' ' }]
}

/// The first `n` cells of the top border, after its leading corner.
spec fn top_line(n: int) -> Seq<char>
    decreases n,
{
    if n <= 0 {
        seq!['+']
    } else {
        top_line(n - 1) + border_cell(true)
    }
}

/// The first `n` cells of the border drawn below a row with the given
/// downward walls.
spec fn border_line(walls: Seq<bool>, n: int) -> Seq<char>
    decreases n,
{
    if n <= 0 {
        seq!['+']
    } else {
        border_line(walls, n - 1) + border_cell(walls[n - 1])
    }
}

/// The first `n` cells of the node row `row`, with the given right walls,
/// marking the nodes that occur in `keys`.
spec fn main_line(walls: Seq<bool>, keys: Seq<(usize, usize)>, row: int, n: int) -> Seq<char>
    decreases n,
{
    if n <= 0 {
        seq!['|']
    } else {
        main_line(walls, keys, row, n - 1) + body_cell(
            walls[n - 1],
            keys.contains((row as usize, (n - 1) as usize)),
        )
    }
}

/// The first `n` rendered rows: for each, its node row and the border below
/// it, each ended by a line break.
spec fn rows_render(
    right: Seq<Vec<bool>>,
    down: Seq<Vec<bool>>,
    keys: Seq<(usize, usize)>,
    cols: int,
    n: int,
) -> Seq<char>
    decreases n,
{
    if n <= 0 {
        Seq::empty()
    } else {
        rows_render(right, down, keys, cols, n - 1) + main_line(right[n - 1]@, keys, n - 1, cols)
            + seq!['\n'] + border_line(down[n - 1]@, cols) + seq!['\n']
    }
}

/// Whether `v@` holds the coordinate pair `(a, b)`.
fn contains_coord(v: &Vec<(usize, usize)>, a: usize, b: usize) -> (r: bool)
    ensures
        r == v@.contains((a, b)),
{
    let mut i: usize = 0;
    while i < v.len()
        invariant
            i <= v.len(),
            forall|j: int| 0 <= j < i ==> v@[j] != (a, b),
        decreases v.len() - i,
    {
        if v[i].0 == a && v[i].1 == b {
            return true;
        }
        i += 1;
    }
    proof {
        if v@.contains((a, b)) {
            let j = choose|j: int| 0 <= j < v@.len() && v@[j] == (a, b);
        }
    }
    false
}

/// A simple maze: a grid of squares for the nodes, where each common edge
/// between two squares may or may not be a wall.
pub struct SquareGrid {
    rows: usize,
    cols: usize,
    right_walls: Vec<Vec<bool>>,
    down_walls: Vec<Vec<bool>>,
}

impl SquareGrid {
    /// Wall storage is consistent with the grid size, and the node count fits
    /// the machine word that `node_count` returns it in.
    #[verifier::type_invariant]
    spec fn wf(&self) -> bool {
        &&& self.right_walls@.len() == self.rows
        &&& self.down_walls@.len() == self.rows
        &&& forall|i: int| 0 <= i < self.rows ==> #[trigger] self.right_walls@[i]@.len()
            == self.cols
        &&& forall|i: int| 0 <= i < self.rows ==> #[trigger] self.down_walls@[i]@.len()
            == self.cols
        &&& self.rows * self.cols <= usize::MAX
    }

    /// The number of rows of the grid.
    pub closed spec fn spec_rows(&self) -> nat {
        self.rows as nat
    }

    /// The number of columns of the grid.
    pub closed spec fn spec_cols(&self) -> nat {
        self.cols as nat
    }

    /// What the abstract model of a grid looks like: its nodes are exactly
    /// the in-range row/column pairs, and two nodes are adjacent exactly when
    /// they sit in the same row or column, one step apart.
    pub proof fn lemma_grid_model(&self, k1: (usize, usize), k2: (usize, usize))
        ensures
            self.spec_nodes() == grid_set(self.spec_rows() as int, self.spec_cols() as int),
            self.spec_nodes().contains(k1) <==> (k1.0 < self.spec_rows() && k1.1
                < self.spec_cols()),
            self.spec_adjacent(k1, k2) <==> (k1.0 < self.spec_rows() && k1.1 < self.spec_cols()
                && k2.0 < self.spec_rows() && k2.1 < self.spec_cols() && ((k1.0 == k2.0 && (k2.1
                == k1.1 + 1 || k1.1 == k2.1 + 1)) || (k1.1 == k2.1 && (k2.0 == k1.0 + 1 || k1.0
                == k2.0 + 1)))),
    {
    }

    /// Returns a new grid with `rows` rows and `cols` columns, with all walls
    /// filled.
    pub fn new(rows: usize, cols: usize) -> (r: Self)
        requires
            rows * cols <= usize::MAX,
        ensures
            r.spec_rows() == rows,
            r.spec_cols() == cols,
            forall|a: (usize, usize), b: (usize, usize)| r.spec_adjacent(a, b)
                ==> #[trigger] r.spec_wall(a, b),
    {
        let mut right_walls: Vec<Vec<bool>> = Vec::new();
        let mut down_walls: Vec<Vec<bool>> = Vec::new();
        let mut i: usize = 0;
        while i < rows
            invariant
                i <= rows,
                right_walls@.len() == i,
                down_walls@.len() == i,
                forall|j: int| 0 <= j < i ==> #[trigger] right_walls@[j]@.len() == cols,
                forall|j: int| 0 <= j < i ==> #[trigger] down_walls@[j]@.len() == cols,
                forall|j: int, k: int| 0 <= j < i && 0 <= k < cols
                    ==> #[trigger] right_walls@[j]@[k] == true,
                forall|j: int, k: int| 0 <= j < i && 0 <= k < cols
                    ==> #[trigger] down_walls@[j]@[k] == true,
            decreases rows - i,
        {
            let mut right_row: Vec<bool> = Vec::new();
            let mut down_row: Vec<bool> = Vec::new();
            let mut j: usize = 0;
            while j < cols
                invariant
                    j <= cols,
                    right_row@.len() == j,
                    down_row@.len() == j,
                    forall|k: int| 0 <= k < j ==> #[trigger] right_row@[k] == true,
                    forall|k: int| 0 <= k < j ==> #[trigger] down_row@[k] == true,
                decreases cols - j,
            {
                right_row.push(true);
                down_row.push(true);
                j += 1;
            }
            right_walls.push(right_row);
            down_walls.push(down_row);
            i += 1;
        }
        Self { rows, cols, right_walls, down_walls }
    }

    /// The rendered form of the maze: a top border, then for each row its
    /// node row and the border below it, one line break after every line,
    /// with a marker in every node that occurs in `keys`.
    pub closed spec fn spec_render(&self, keys: Seq<(usize, usize)>) -> Seq<char> {
        top_line(self.cols as int) + seq!['\n'] + rows_render(
            self.right_walls@,
            self.down_walls@,
            keys,
            self.cols as int,
            self.rows as int,
        )
    }

    /// Returns a string drawing the maze, with a `*` at the position of each
    /// element of `keys`; keys outside the grid are ignored.
    pub fn to_string_with_keys(&self, keys: &Vec<(usize, usize)>) -> (r: String)
        ensures
            r@ == self.spec_render(keys@),
    {
        proof {
            use_type_invariant(self);
        }
        let mut out = String::new();
        out.append("+");
        proof {
            reveal_strlit("+");
            assert(out@ =~= top_line(0));
        }
        let mut c: usize = 0;
        while c < self.cols
            invariant
                c <= self.cols,
                out@ == top_line(c as int),
            decreases self.cols - c,
        {
            out.append("---+");
            proof {
                reveal_strlit("---+");
                assert(out@ =~= top_line(c + 1 as int));
            }
            c += 1;
        }
        out.append("\n");
        proof {
            reveal_strlit("\n");
            assert(out@ =~= top_line(self.cols as int) + seq!['\n']);
        }
        let ghost base = out@;
        let mut row: usize = 0;
        while row < self.rows
            invariant
                row <= self.rows,
                base == top_line(self.cols as int) + seq!['\n'],
                out@ == base + rows_render(
                    self.right_walls@,
                    self.down_walls@,
                    keys@,
                    self.cols as int,
                    row as int,
                ),
            decreases self.rows - row,
        {
            proof {
                use_type_invariant(self);
            }
            let ghost row_base = out@;
            out.append("|");
            proof {
                reveal_strlit("|");
                assert(out@ =~= row_base + main_line(
                    self.right_walls@[row as int]@,
                    keys@,
                    row as int,
                    0,
                ));
            }
            let mut col: usize = 0;
            while col < self.cols
                invariant
                    row < self.rows,
                    col <= self.cols,
                    self.wf(),
                    out@ == row_base + main_line(
                        self.right_walls@[row as int]@,
                        keys@,
                        row as int,
                        col as int,
                    ),
                decreases self.cols - col,
            {
                let marked = contains_coord(keys, row, col);
                let walled = self.right_walls[row][col];
                let ghost before = out@;
                if marked {
                    if walled {
                        out.append(" * |");
                    } else {
                        out.append(" *  ");
                    }
                } else {
                    if walled {
                        out.append("   |");
                    } else {
                        out.append("    ");
                    }
                }
                proof {
                    reveal_strlit(" * |");
                    reveal_strlit(" *  ");
                    reveal_strlit("   |");
                    reveal_strlit("    ");
                    assert(out@ =~= before + body_cell(walled, marked));
                    assert(out@ =~= row_base + main_line(
                        self.right_walls@[row as int]@,
                        keys@,
                        row as int,
                        col + 1 as int,
                    ));
                }
                col += 1;
            }
            out.append("\n");
            let ghost border_base = out@;
            out.append("+");
            proof {
                reveal_strlit("\n");
                reveal_strlit("+");
                assert(out@ =~= border_base + border_line(self.down_walls@[row as int]@, 0));
            }
            let mut col2: usize = 0;
            while col2 < self.cols
                invariant
                    row < self.rows,
                    col2 <= self.cols,
                    self.wf(),
                    out@ == border_base + border_line(
                        self.down_walls@[row as int]@,
                        col2 as int,
                    ),
                decreases self.cols - col2,
            {
                let ghost before = out@;
                if self.down_walls[row][col2] {
                    out.append("---+");
                } else {
                    out.append("   +");
                }
                proof {
                    reveal_strlit("---+");
                    reveal_strlit("   +");
                    assert(out@ =~= before + border_cell(
                        self.down_walls@[row as int]@[col2 as int],
                    ));
                    assert(out@ =~= border_base + border_line(
                        self.down_walls@[row as int]@,
                        col2 + 1 as int,
                    ));
                }
                col2 += 1;
            }
            out.append("\n");
            proof {
                reveal_strlit("\n");
                assert(out@ =~= base + rows_render(
                    self.right_walls@,
                    self.down_walls@,
                    keys@,
                    self.cols as int,
                    row + 1 as int,
                ));
            }
            row += 1;
        }
        out
    }
}

impl Maze for SquareGrid {
    type Key = (usize, usize);

    closed spec fn spec_nodes(&self) -> Set<(usize, usize)> {
        grid_set(self.rows as int, self.cols as int)
    }

    closed spec fn spec_adjacent(&self, k1: (usize, usize), k2: (usize, usize)) -> bool {
        &&& k1.0 < self.rows
        &&& k1.1 < self.cols
        &&& k2.0 < self.rows
        &&& k2.1 < self.cols
        &&& ((k1.0 == k2.0 && (k2.1 == k1.1 + 1 || k1.1 == k2.1 + 1)) || (k1.1 == k2.1 && (k2.0
            == k1.0 + 1 || k1.0 == k2.0 + 1)))
    }

    closed spec fn spec_wall(&self, k1: (usize, usize), k2: (usize, usize)) -> bool {
        if k1.0 == k2.0 {
            if k2.1 == k1.1 + 1 {
                self.right_walls@[k1.0 as int]@[k1.1 as int]
            } else if k1.1 == k2.1 + 1 {
                self.right_walls@[k1.0 as int]@[k2.1 as int]
            } else {
                false
            }
        } else if k1.1 == k2.1 {
            if k2.0 == k1.0 + 1 {
                self.down_walls@[k1.0 as int]@[k1.1 as int]
            } else if k1.0 == k2.0 + 1 {
                self.down_walls@[k2.0 as int]@[k1.1 as int]
            } else {
                false
            }
        } else {
            false
        }
    }

    proof fn laws(&self, k1: (usize, usize), k2: (usize, usize)) {
        lemma_grid_set_finite(self.rows as int, self.cols as int);
    }

    fn nodes(&self) -> (r: Vec<(usize, usize)>) {
        let mut out: Vec<(usize, usize)> = Vec::new();
        let mut row: usize = 0;
        while row < self.rows
            invariant
                row <= self.rows,
                forall|k: (usize, usize)| #[trigger] out@.contains(k) <==> (k.0 < row && k.1
                    < self.cols),
                out@.no_duplicates(),
            decreases self.rows - row,
        {
            let mut col: usize = 0;
            while col < self.cols
                invariant
                    row < self.rows,
                    col <= self.cols,
                    forall|k: (usize, usize)| #[trigger] out@.contains(k) <==> ((k.0 < row && k.1
                        < self.cols) || (k.0 == row && k.1 < col)),
                    out@.no_duplicates(),
                decreases self.cols - col,
            {
                let ghost out0 = out@;
                out.push((row, col));
                proof {
                    assert(!out0.contains((row, col)));
                    assert forall|p: int, q: int| 0 <= p < q < out@.len() implies out@[p]
                        != out@[q] by {
                        if q == out@.len() - 1 && out@[p] == out@[q] {
                            assert(out0.contains(out0[p]));
                        }
                    }
                }
                col += 1;
            }
            row += 1;
        }
        proof {
            assert(out@.to_set() =~= self.spec_nodes());
        }
        out
    }

    fn adjacent(&self, key: &(usize, usize)) -> (r: Vec<(usize, usize)>) {
        let (row, col) = *key;
        let mut out: Vec<(usize, usize)> = Vec::new();
        if row >= self.rows || col >= self.cols {
            return out;
        }
        if row > 0 {
            out.push((row - 1, col));
        }
        assert(forall|k: (usize, usize)| #[trigger] out@.contains(k) <==> (row > 0 && k == ((row
            - 1) as usize, col)));
        if row < self.rows - 1 {
            out.push((row + 1, col));
        }
        assert(forall|k: (usize, usize)| #[trigger] out@.contains(k) <==> ((row > 0 && k == ((row
            - 1) as usize, col)) || (row + 1 < self.rows && k == ((row + 1) as usize, col))));
        if col > 0 {
            out.push((row, col - 1));
        }
        assert(forall|k: (usize, usize)| #[trigger] out@.contains(k) <==> ((row > 0 && k == ((row
            - 1) as usize, col)) || (row + 1 < self.rows && k == ((row + 1) as usize, col)) || (col
            > 0 && k == (row, (col - 1) as usize))));
        if col < self.cols - 1 {
            out.push((row, col + 1));
        }
        assert(forall|k: (usize, usize)| #[trigger] out@.contains(k) <==> ((row > 0 && k == ((row
            - 1) as usize, col)) || (row + 1 < self.rows && k == ((row + 1) as usize, col)) || (col
            > 0 && k == (row, (col - 1) as usize)) || (col + 1 < self.cols && k == (row, (col
            + 1) as usize))));
        assert(out@.no_duplicates()) by {
            assert forall|p: int, q: int| 0 <= p < q < out@.len() implies out@[p] != out@[q] by {
                assert(out@.contains(out@[p]));
                assert(out@.contains(out@[q]));
            }
        }
        out
    }

    fn has_wall(&self, k1: &(usize, usize), k2: &(usize, usize)) -> (r: Option<bool>) {
        proof {
            use_type_invariant(self);
        }
        let (r1, c1) = *k1;
        let (r2, c2) = *k2;
        if r1 >= self.rows || c1 >= self.cols || r2 >= self.rows || c2 >= self.cols {
            return None;
        }
        if r1 == r2 {
            if c2 == c1 + 1 {
                Some(self.right_walls[r1][c1])
            } else if c1 == c2 + 1 {
                Some(self.right_walls[r1][c2])
            } else {
                None
            }
        } else if c1 == c2 {
            if r2 == r1 + 1 {
                Some(self.down_walls[r1][c1])
            } else if r1 == r2 + 1 {
                Some(self.down_walls[r2][c1])
            } else {
                None
            }
        } else {
            None
        }
    }

    fn key_eq(&self, k1: &(usize, usize), k2: &(usize, usize)) -> (r: bool) {
        k1.0 == k2.0 && k1.1 == k2.1
    }

    fn key_clone(&self, k: &(usize, usize)) -> (r: (usize, usize)) {
        *k
    }

    fn node_count(&self) -> (r: usize) {
        proof {
            use_type_invariant(self);
            lemma_grid_set_finite(self.rows as int, self.cols as int);
        }
        self.rows * self.cols
    }
}

impl SquareGrid {
    /// Sets the wall between `k1` and `k2` to `value` and returns the
    /// previous state, or `None` if the two keys are not adjacent.
    fn set_wall(&mut self, k1: &(usize, usize), k2: &(usize, usize), value: bool) -> (r: Option<
        bool,
    >)
        ensures
            same_topology(*old(self), *final(self)),
            r is Some <==> old(self).spec_adjacent(*k1, *k2),
            old(self).spec_adjacent(*k1, *k2) ==> r == Some(old(self).spec_wall(*k1, *k2))
                && final(self).spec_wall(*k1, *k2) == value && final(self).spec_wall(*k2, *k1)
                == value,
            forall|a: (usize, usize), b: (usize, usize)|
                #![trigger old(self).spec_wall(a, b)]
                #![trigger final(self).spec_wall(a, b)]
                old(self).spec_adjacent(a, b) && !same_edge(a, b, *k1, *k2)
                    ==> final(self).spec_wall(a, b) == old(self).spec_wall(a, b),
    {
        proof {
            use_type_invariant(&*self);
        }
        let (r1, c1) = *k1;
        let (r2, c2) = *k2;
        if r1 >= self.rows || c1 >= self.cols || r2 >= self.rows || c2 >= self.cols {
            return None;
        }
        // Mutating wall storage in place through `self` would leave the type
        // invariant unprovable mid-borrow, so the fields are moved out, the
        // one cell is updated, and the grid is rebuilt.
        let mut taken = SquareGrid {
            rows: 0,
            cols: 0,
            right_walls: Vec::new(),
            down_walls: Vec::new(),
        };
        std::mem::swap(&mut taken, self);
        let SquareGrid { rows, cols, mut right_walls, mut down_walls } = taken;
        let prev: bool;
        if r1 == r2 {
            if c2 == c1 + 1 {
                prev = right_walls[r1][c1];
                right_walls[r1][c1] = value;
            } else if c1 == c2 + 1 {
                prev = right_walls[r1][c2];
                right_walls[r1][c2] = value;
            } else {
                *self = SquareGrid { rows, cols, right_walls, down_walls };
                return None;
            }
        } else if c1 == c2 {
            if r2 == r1 + 1 {
                prev = down_walls[r1][c1];
                down_walls[r1][c1] = value;
            } else if r1 == r2 + 1 {
                prev = down_walls[r2][c1];
                down_walls[r2][c1] = value;
            } else {
                *self = SquareGrid { rows, cols, right_walls, down_walls };
                return None;
            }
        } else {
            *self = SquareGrid { rows, cols, right_walls, down_walls };
            return None;
        }
        *self = SquareGrid { rows, cols, right_walls, down_walls };
        Some(prev)
    }
}

impl MazeMut for SquareGrid {
    fn add_wall(&mut self, k1: &(usize, usize), k2: &(usize, usize)) -> (r: Option<bool>) {
        self.set_wall(k1, k2, true)
    }

    fn remove_wall(&mut self, k1: &(usize, usize), k2: &(usize, usize)) -> (r: Option<bool>) {
        self.set_wall(k1, k2, false)
    }
}

impl MazeGeneratable for SquareGrid {
    fn add_all_walls(&mut self) {
        proof {
            use_type_invariant(&*self);
        }
        let fresh = SquareGrid::new(self.rows, self.cols);
        *self = fresh;
    }

    fn possible_walls(&self) -> (r: Vec<((usize, usize), (usize, usize))>) {
        let mut out: Vec<((usize, usize), (usize, usize))> = Vec::new();
        let mut row: usize = 0;
        while row < self.rows
            invariant
                row <= self.rows,
                forall|i: int| 0 <= i < out@.len() ==> self.spec_adjacent(out@[i].0, out@[i].1)
                    && #[trigger] out@[i].0.0 < row,
                forall|i: int, j: int| 0 <= i < j < out@.len() ==> !same_edge(
                    out@[i].0,
                    out@[i].1,
                    out@[j].0,
                    out@[j].1,
                ),
                forall|a: (usize, usize), b: (usize, usize)| #[trigger] self.spec_adjacent(a, b)
                    && (a.0 < b.0 || (a.0 == b.0 && a.1 < b.1)) && a.0 < row ==> out@.contains(
                    (a, b),
                ),
            decreases self.rows - row,
        {
            let mut col: usize = 0;
            while col < self.cols
                invariant
                    row < self.rows,
                    col <= self.cols,
                    forall|i: int| 0 <= i < out@.len() ==> self.spec_adjacent(out@[i].0, out@[i].1)
                        && (#[trigger] out@[i].0.0 < row || (out@[i].0.0 == row && out@[i].0.1
                        < col)),
                    forall|i: int, j: int| 0 <= i < j < out@.len() ==> !same_edge(
                        out@[i].0,
                        out@[i].1,
                        out@[j].0,
                        out@[j].1,
                    ),
                    forall|a: (usize, usize), b: (usize, usize)| #[trigger] self.spec_adjacent(
                        a,
                        b,
                    ) && (a.0 < b.0 || (a.0 == b.0 && a.1 < b.1)) && (a.0 < row || (a.0 == row
                        && a.1 < col)) ==> out@.contains((a, b)),
                decreases self.cols - col,
            {
                let ghost out0 = out@;
                if col + 1 < self.cols {
                    out.push(((row, col), (row, col + 1)));
                }
                let ghost out1 = out@;
                if row + 1 < self.rows {
                    out.push(((row, col), (row + 1, col)));
                }
                proof {
                    assert forall|i: int, j: int| 0 <= i < j < out@.len() implies !same_edge(
                        out@[i].0,
                        out@[i].1,
                        out@[j].0,
                        out@[j].1,
                    ) by {
                        if j >= out0.len() && i < out0.len() {
                            assert(out@[i] == out0[i]);
                            assert(out0[i].0.0 < row || (out0[i].0.0 == row && out0[i].0.1 < col));
                        }
                    }
                    assert forall|a: (usize, usize), b: (usize, usize)| #[trigger] self
                        .spec_adjacent(a, b) && (a.0 < b.0 || (a.0 == b.0 && a.1 < b.1)) && (a.0
                        < row || (a.0 == row && a.1 <= col)) implies out@.contains((a, b)) by {
                        if a.0 == row && a.1 == col {
                            if a.0 == b.0 {
                                assert(out1.contains((a, b)));
                            } else {
                                assert(out@.contains((a, b)));
                            }
                        } else {
                            assert(out0.contains((a, b)));
                        }
                    }
                }
                col += 1;
            }
            row += 1;
        }
        proof {
            assert forall|a: (usize, usize), b: (usize, usize)| #[trigger] self.spec_adjacent(
                a,
                b,
            ) implies (out@.contains((a, b)) || out@.contains((b, a))) by {
                if a.0 < b.0 || (a.0 == b.0 && a.1 < b.1) {
                } else {
                    assert(self.spec_adjacent(b, a));
                }
            }
            assert forall|a: (usize, usize), b: (usize, usize)|
                out@.contains((a, b)) || out@.contains((b, a)) implies #[trigger] self
                .spec_adjacent(a, b) by {
                if out@.contains((a, b)) {
                    let i = choose|i: int| 0 <= i < out@.len() && out@[i] == (a, b);
                    assert(self.spec_adjacent(out@[i].0, out@[i].1));
                } else {
                    let i = choose|i: int| 0 <= i < out@.len() && out@[i] == (b, a);
                    assert(self.spec_adjacent(out@[i].0, out@[i].1));
                }
            }
        }
        out
    }
}

proof fn lemma_grid_row_walk(g: SquareGrid, r: usize, c1: usize, c2: usize)
    requires
        r < g.spec_rows(),
        c1 < g.spec_cols(),
        c2 < g.spec_cols(),
    ensures
        reach(topo_adj(g), (r, c1), (r, c2)),
    decreases (if c1 <= c2 { c2 - c1 } else { c1 - c2 }),
{
    if c1 == c2 {
        lemma_reach_refl(topo_adj(g), (r, c1));
    } else if c1 < c2 {
        lemma_grid_row_walk(g, r, c1, (c2 - 1) as usize);
        assert(topo_adj(g)((r, (c2 - 1) as usize), (r, c2)));
        lemma_reach_step(topo_adj(g), (r, c1), (r, (c2 - 1) as usize), (r, c2));
    } else {
        lemma_grid_row_walk(g, r, c1, (c2 + 1) as usize);
        assert(topo_adj(g)((r, (c2 + 1) as usize), (r, c2)));
        lemma_reach_step(topo_adj(g), (r, c1), (r, (c2 + 1) as usize), (r, c2));
    }
}

proof fn lemma_grid_col_walk(g: SquareGrid, c: usize, r1: usize, r2: usize)
    requires
        c < g.spec_cols(),
        r1 < g.spec_rows(),
        r2 < g.spec_rows(),
    ensures
        reach(topo_adj(g), (r1, c), (r2, c)),
    decreases (if r1 <= r2 { r2 - r1 } else { r1 - r2 }),
{
    if r1 == r2 {
        lemma_reach_refl(topo_adj(g), (r1, c));
    } else if r1 < r2 {
        lemma_grid_col_walk(g, c, r1, (r2 - 1) as usize);
        assert(topo_adj(g)(((r2 - 1) as usize, c), (r2, c)));
        lemma_reach_step(topo_adj(g), (r1, c), ((r2 - 1) as usize, c), (r2, c));
    } else {
        lemma_grid_col_walk(g, c, r1, (r2 + 1) as usize);
        assert(topo_adj(g)(((r2 + 1) as usize, c), (r2, c)));
        lemma_reach_step(topo_adj(g), (r1, c), ((r2 + 1) as usize, c), (r2, c));
    }
}

/// A grid topology is connected: every node reaches every other along bare
/// adjacency, by walking first along the row and then along the column. With
/// the generator's and the solver's contracts this gives that generation on a
/// grid always succeeds and that solving the carved maze always finds a path.
pub proof fn lemma_grid_connected(g: SquareGrid, a: (usize, usize), b: (usize, usize))
    requires
        g.spec_nodes().contains(a),
        g.spec_nodes().contains(b),
    ensures
        reach(topo_adj(g), a, b),
{
    let mid = (a.0, b.1);
    lemma_grid_row_walk(g, a.0, a.1, b.1);
    lemma_grid_col_walk(g, b.1, a.0, b.0);
    lemma_reach_trans(topo_adj(g), a, mid, b);
}

/// A two-node topology that deliberately withholds its only edge: its two
/// nodes are never adjacent, so no carving can connect them. A grid can never
/// produce the generator's failure return; this topology exists so that the
/// disconnected case can be exercised at all.
pub struct DisconnectedPair();

impl DisconnectedPair {
    /// Returns the two-node topology with no edges.
    pub fn new() -> (r: Self) {
        DisconnectedPair()
    }
}

impl Maze for DisconnectedPair {
    type Key = bool;

    closed spec fn spec_nodes(&self) -> Set<bool> {
        Set::new(|k: bool| true)
    }

    closed spec fn spec_adjacent(&self, k1: bool, k2: bool) -> bool {
        false
    }

    closed spec fn spec_wall(&self, k1: bool, k2: bool) -> bool {
        true
    }

    proof fn laws(&self, k1: bool, k2: bool) {
        assert(self.spec_nodes() =~= Set::empty().insert(false).insert(true));
    }

    fn nodes(&self) -> (r: Vec<bool>) {
        let mut out: Vec<bool> = Vec::new();
        out.push(false);
        out.push(true);
        proof {
            assert(out@ =~= seq![false, true]);
            assert forall|k: bool| self.spec_nodes().contains(k) implies out@.to_set().contains(
                k,
            ) by {
                if k {
                    assert(out@[1] == k);
                } else {
                    assert(out@[0] == k);
                }
            }
            assert(out@.to_set() =~= self.spec_nodes());
        }
        out
    }

    fn adjacent(&self, key: &bool) -> (r: Vec<bool>) {
        Vec::new()
    }

    fn has_wall(&self, k1: &bool, k2: &bool) -> (r: Option<bool>) {
        None
    }

    fn key_eq(&self, k1: &bool, k2: &bool) -> (r: bool) {
        *k1 == *k2
    }

    fn key_clone(&self, k: &bool) -> (r: bool) {
        *k
    }
}

impl MazeMut for DisconnectedPair {
    fn add_wall(&mut self, k1: &bool, k2: &bool) -> (r: Option<bool>) {
        None
    }

    fn remove_wall(&mut self, k1: &bool, k2: &bool) -> (r: Option<bool>) {
        None
    }
}

impl MazeGeneratable for DisconnectedPair {
    fn add_all_walls(&mut self) {
    }

    fn possible_walls(&self) -> (r: Vec<(bool, bool)>) {
        Vec::new()
    }
}

} // verus!
