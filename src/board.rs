use vstd::prelude::*;
use crate::cell::{Cell, Ownership};

verus! {

/// Failures of board operations.
#[derive(Debug, Clone, Copy, PartialEq, Eq, Structural)]
pub enum BoardError {
    /// A coordinate outside the board, or any coordinate on a board without cells.
    InvalidCoordinate,
    /// A question asked of the unowned marker instead of a player.
    InvalidPlayer,
    /// A move was asked for on a board without unoccupied cells.
    NoMovesAvailable,
}

/// A rhombus of hexagonal cells stored as a matrix indexed `[x][y]`.
///
/// `(0, 0)` is the bottom left corner; `x` grows to the right and `y`
/// upwards. Each row is shifted half a cell against the one below it, which
/// makes the matrix a hexagonal tiling: see [`adjacent`].
#[derive(Debug)]
pub struct Board {
    pub dim_x: usize,
    pub dim_y: usize,
    pub cells: Vec<Vec<Cell>>,
}

/// The six hex neighbours of `(x1, y1)`: left, right, below, above, and the
/// down-left / up-right diagonal.
pub open spec fn adjacent(x1: int, y1: int, x2: int, y2: int) -> bool {
    let dx = x2 - x1;
    let dy = y2 - y1;
    ||| dx == -1 && dy == 0
    ||| dx == 1 && dy == 0
    ||| dx == 0 && dy == -1
    ||| dx == 0 && dy == 1
    ||| dx == -1 && dy == -1
    ||| dx == 1 && dy == 1
}

/// The six candidate neighbour coordinates of `(x, y)`, in the order in which
/// they are examined.
pub open spec fn candidates(x: int, y: int) -> Seq<(int, int)> {
    seq![(x - 1, y), (x + 1, y), (x, y - 1), (x, y + 1), (x - 1, y - 1), (x + 1, y + 1)]
}

/// `a` comes before `b` in column-major order: by `x`, then by `y`.
pub open spec fn before(a: (int, int), b: (int, int)) -> bool {
    a.0 < b.0 || (a.0 == b.0 && a.1 < b.1)
}

/// `visited` is a non-empty rectangle of markers.
pub open spec fn is_marker_grid(visited: Seq<Vec<bool>>) -> bool {
    &&& visited.len() > 0
    &&& visited[0]@.len() > 0
    &&& forall|a: int| 0 <= a < visited.len() ==> #[trigger] visited[a]@.len() == visited[0]@.len()
}

impl Board {
    pub open spec fn in_bounds(&self, x: int, y: int) -> bool {
        0 <= x < self.dim_x && 0 <= y < self.dim_y
    }

    pub open spec fn cell(&self, x: int, y: int) -> Cell {
        self.cells@[x]@[y]
    }

    pub open spec fn owner(&self, x: int, y: int) -> Ownership {
        self.cell(x, y).ownership
    }

    /// The board has no cell at all.
    pub open spec fn spec_is_empty(&self) -> bool {
        self.dim_x == 0 || self.dim_y == 0
    }

    /// Either the placeholder board without dimensions, or a `dim_x` by
    /// `dim_y` matrix whose cells carry their own coordinates.
    pub open spec fn wf(&self) -> bool {
        &&& self.dim_x <= isize::MAX
        &&& self.dim_y <= isize::MAX
        &&& (self.dim_x == 0 && self.dim_y == 0) || self.cells@.len() == self.dim_x
        &&& forall|x: int| 0 <= x < self.dim_x ==> #[trigger] self.cells@[x]@.len() == self.dim_y
        &&& forall|x: int, y: int|
            #![trigger self.cells@[x]@[y]]
            self.in_bounds(x, y) ==> self.cell(x, y).x == x && self.cell(x, y).y == y
    }

    /// The cells among `s` that lie on the board, in the order of `s`.
    pub open spec fn cells_among(&self, s: Seq<(int, int)>) -> Seq<Cell>
        decreases s.len(),
    {
        if s.len() == 0 {
            seq![]
        } else {
            let rest = self.cells_among(s.drop_last());
            let p = s.last();
            if self.in_bounds(p.0, p.1) {
                rest.push(self.cell(p.0, p.1))
            } else {
                rest
            }
        }
    }

    /// The hex neighbours of `(x, y)` that lie on the board.
    pub open spec fn neighbours(&self, x: int, y: int) -> Seq<Cell> {
        self.cells_among(candidates(x, y))
    }

    /// The placeholder board: no dimensions and one empty column.
    pub fn new() -> (r: Board)
        ensures
            r.wf(),
            r.dim_x == 0,
            r.dim_y == 0,
            r.cells@.len() == 1,
            r.cells@[0]@.len() == 0,
    {
        Board { dim_x: 0, dim_y: 0, cells: vec![Vec::new()] }
    }

    /// A `dim_x` by `dim_y` board of unowned cells.
    pub fn new_from_dims(dim_x: usize, dim_y: usize) -> (r: Board)
        requires
            dim_x <= isize::MAX,
            dim_y <= isize::MAX,
        ensures
            r.wf(),
            r.dim_x == dim_x,
            r.dim_y == dim_y,
            r.cells@.len() == dim_x,
            forall|x: int| 0 <= x < dim_x ==> #[trigger] r.cells@[x]@.len() == dim_y,
            forall|x: int, y: int| #[trigger] r.in_bounds(x, y) ==> r.owner(x, y) == Ownership::Unowned,
    {
        let mut matrix: Vec<Vec<Cell>> = Vec::with_capacity(dim_x);
        for x in 0..dim_x
            invariant
                matrix@.len() == x,
                forall|a: int| 0 <= a < x ==> #[trigger] matrix@[a]@.len() == dim_y,
                forall|a: int, b: int|
                    #![trigger matrix@[a]@[b]]
                    0 <= a < x && 0 <= b < dim_y ==> matrix@[a]@[b] == (Cell { x: a as usize, y: b as usize, ownership: Ownership::Unowned }),
        {
            let mut column: Vec<Cell> = Vec::with_capacity(dim_y);
            for y in 0..dim_y
                invariant
                    column@.len() == y,
                    forall|b: int|
                        0 <= b < y ==> #[trigger] column@[b] == (Cell { x: x, y: b as usize, ownership: Ownership::Unowned }),
            {
                column.push(Cell::new(x, y));
            }
            matrix.push(column);
        }
        Board { dim_x, dim_y, cells: matrix }
    }

    /// A square board of side `dim`.
    pub fn new_from_dim(dim: usize) -> (r: Board)
        requires
            dim <= isize::MAX,
        ensures
            r.wf(),
            r.dim_x == dim,
            r.dim_y == dim,
            r.cells@.len() == dim,
            forall|x: int, y: int| #[trigger] r.in_bounds(x, y) ==> r.owner(x, y) == Ownership::Unowned,
    {
        Board::new_from_dims(dim, dim)
    }

    /// Whether the board has no cell.
    pub fn is_empty(&self) -> (r: bool)
        ensures
            r == self.spec_is_empty(),
    {
        self.dim_x == 0 || self.dim_y == 0
    }

    /// Whether `(x, y)` lies on the board.
    pub fn is_valid_square(&self, x: isize, y: isize) -> (r: bool)
        requires
            !self.spec_is_empty(),
        ensures
            r == self.in_bounds(x as int, y as int),
    {
        !(x < 0 || y < 0 || x as usize >= self.dim_x || y as usize >= self.dim_y)
    }

    /// Copies of the cells hex-adjacent to `(x, y)`, in the order of
    /// [`candidates`]; coordinates off the board are left out.
    pub fn get_neighbours(&self, x: isize, y: isize) -> (r: Vec<Cell>)
        requires
            self.wf(),
            !self.spec_is_empty(),
            isize::MIN < x < isize::MAX,
            isize::MIN < y < isize::MAX,
        ensures
            r@ == self.neighbours(x as int, y as int),
            forall|j: int|
                0 <= j < r@.len() ==> {
                    let c = #[trigger] r@[j];
                    &&& self.in_bounds(c.x as int, c.y as int)
                    &&& adjacent(x as int, y as int, c.x as int, c.y as int)
                    &&& c == self.cell(c.x as int, c.y as int)
                },
            forall|a: int, b: int|
                #![trigger adjacent(x as int, y as int, a, b)]
                self.in_bounds(a, b) && adjacent(x as int, y as int, a, b) ==> exists|j: int|
                    0 <= j < r@.len() && (#[trigger] r@[j]).x == a && r@[j].y == b,
    {
        let ghost cs = candidates(x as int, y as int);
        let cands: Vec<(isize, isize)> = vec![
            (x - 1, y),
            (x + 1, y),
            (x, y - 1),
            (x, y + 1),
            (x - 1, y - 1),
            (x + 1, y + 1),
        ];
        assert(cands@.len() == 6);
        let mut neighbours: Vec<Cell> = Vec::with_capacity(6);
        let mut i: usize = 0;
        while i < cands.len()
            invariant
                self.wf(),
                !self.spec_is_empty(),
                cands@.len() == 6,
                i <= 6,
                forall|k: int| 0 <= k < 6 ==> (#[trigger] cands@[k]).0 as int == cs[k].0 && cands@[k].1 as int == cs[k].1,
                cs == candidates(x as int, y as int),
                neighbours@ == self.cells_among(cs.take(i as int)),
                forall|j: int|
                    0 <= j < neighbours@.len() ==> {
                        let c = #[trigger] neighbours@[j];
                        &&& self.in_bounds(c.x as int, c.y as int)
                        &&& adjacent(x as int, y as int, c.x as int, c.y as int)
                        &&& c == self.cell(c.x as int, c.y as int)
                    },
                forall|k: int|
                    0 <= k < i && self.in_bounds(#[trigger] cs[k].0, cs[k].1) ==> exists|j: int|
                        0 <= j < neighbours@.len() && (#[trigger] neighbours@[j]).x == cs[k].0 && neighbours@[j].y == cs[k].1,
            decreases 6 - i,
        {
            let (cx, cy) = cands[i];
            let ghost old_n = neighbours@;
            assert(cs.take(i + 1).drop_last() =~= cs.take(i as int));
            if self.is_valid_square(cx, cy) {
                neighbours.push(self.cells[cx as usize][cy as usize]);
                assert(neighbours@[old_n.len() as int] == self.cell(cx as int, cy as int));
            }
            assert forall|k: int|
                0 <= k < i + 1 && self.in_bounds(#[trigger] cs[k].0, cs[k].1) implies exists|j: int|
                    0 <= j < neighbours@.len() && (#[trigger] neighbours@[j]).x == cs[k].0 && neighbours@[j].y == cs[k].1 by {
                if k < i {
                    let j = choose|j: int| 0 <= j < old_n.len() && (#[trigger] old_n[j]).x == cs[k].0 && old_n[j].y == cs[k].1;
                    assert(neighbours@[j] == old_n[j]);
                } else {
                    assert(neighbours@[old_n.len() as int].x == cs[k].0);
                }
            }
            i += 1;
        }
        assert(cs.take(6) =~= cs);
        assert forall|a: int, b: int|
            #![trigger adjacent(x as int, y as int, a, b)]
            self.in_bounds(a, b) && adjacent(x as int, y as int, a, b) implies exists|j: int|
                0 <= j < neighbours@.len() && (#[trigger] neighbours@[j]).x == a && neighbours@[j].y == b by {
            let dx = a - x;
            let dy = b - y;
            if dx == -1 && dy == 0 {
                assert(self.in_bounds(cs[0].0, cs[0].1));
            } else if dx == 1 && dy == 0 {
                assert(self.in_bounds(cs[1].0, cs[1].1));
            } else if dx == 0 && dy == -1 {
                assert(self.in_bounds(cs[2].0, cs[2].1));
            } else if dx == 0 && dy == 1 {
                assert(self.in_bounds(cs[3].0, cs[3].1));
            } else if dx == -1 && dy == -1 {
                assert(self.in_bounds(cs[4].0, cs[4].1));
            } else {
                assert(self.in_bounds(cs[5].0, cs[5].1));
            }
        }
        neighbours
    }
    /// The coordinates of the unowned cells, in column-major order.
    pub fn get_unoccupied_squares(&self) -> (r: Vec<(usize, usize)>)
        requires
            self.wf(),
        ensures
            forall|k: int|
                0 <= k < r@.len() ==> {
                    let p = #[trigger] r@[k];
                    self.in_bounds(p.0 as int, p.1 as int) && self.owner(p.0 as int, p.1 as int) == Ownership::Unowned
                },
            forall|x: int, y: int|
                #![trigger self.owner(x, y)]
                self.in_bounds(x, y) && self.owner(x, y) == Ownership::Unowned ==> exists|k: int|
                    0 <= k < r@.len() && #[trigger] r@[k] == (x as usize, y as usize),
            forall|k1: int, k2: int|
                0 <= k1 < k2 < r@.len() ==> before(
                    ((#[trigger] r@[k1]).0 as int, r@[k1].1 as int),
                    ((#[trigger] r@[k2]).0 as int, r@[k2].1 as int),
                ),
    {
        let mut squares: Vec<(usize, usize)> = Vec::new();
        for x in 0..self.dim_x
            invariant
                self.wf(),
                forall|k: int|
                    0 <= k < squares@.len() ==> {
                        let p = #[trigger] squares@[k];
                        &&& self.in_bounds(p.0 as int, p.1 as int)
                        &&& self.owner(p.0 as int, p.1 as int) == Ownership::Unowned
                        &&& p.0 < x
                    },
                forall|a: int, b: int|
                    #![trigger self.owner(a, b)]
                    self.in_bounds(a, b) && a < x && self.owner(a, b) == Ownership::Unowned ==> exists|k: int|
                        0 <= k < squares@.len() && #[trigger] squares@[k] == (a as usize, b as usize),
                forall|k1: int, k2: int|
                    0 <= k1 < k2 < squares@.len() ==> before(
                        ((#[trigger] squares@[k1]).0 as int, squares@[k1].1 as int),
                        ((#[trigger] squares@[k2]).0 as int, squares@[k2].1 as int),
                    ),
        {
            for y in 0..self.dim_y
                invariant
                    self.wf(),
                    x < self.dim_x,
                    forall|k: int|
                        0 <= k < squares@.len() ==> {
                            let p = #[trigger] squares@[k];
                            &&& self.in_bounds(p.0 as int, p.1 as int)
                            &&& self.owner(p.0 as int, p.1 as int) == Ownership::Unowned
                            &&& before((p.0 as int, p.1 as int), (x as int, y as int))
                        },
                    forall|a: int, b: int|
                        #![trigger self.owner(a, b)]
                        self.in_bounds(a, b) && before((a, b), (x as int, y as int)) && self.owner(a, b)
                            == Ownership::Unowned ==> exists|k: int|
                            0 <= k < squares@.len() && #[trigger] squares@[k] == (a as usize, b as usize),
                    forall|k1: int, k2: int|
                        0 <= k1 < k2 < squares@.len() ==> before(
                            ((#[trigger] squares@[k1]).0 as int, squares@[k1].1 as int),
                            ((#[trigger] squares@[k2]).0 as int, squares@[k2].1 as int),
                        ),
            {
                let ghost old_sq = squares@;
                if self.cells[x][y].ownership == Ownership::Unowned {
                    squares.push((x, y));
                    assert forall|a: int, b: int|
                        #![trigger self.owner(a, b)]
                        self.in_bounds(a, b) && before((a, b), (x as int, y + 1)) && self.owner(a, b)
                            == Ownership::Unowned implies exists|k: int|
                            0 <= k < squares@.len() && #[trigger] squares@[k] == (a as usize, b as usize) by {
                        if a == x && b == y {
                            assert(squares@[old_sq.len() as int] == (a as usize, b as usize));
                        } else {
                            let k = choose|k: int| 0 <= k < old_sq.len() && #[trigger] old_sq[k] == (a as usize, b as usize);
                            assert(squares@[k] == old_sq[k]);
                        }
                    }
                }
            }
        }
        squares
    }

    /// The first unvisited position of a marker grid in column-major order,
    /// or `None` when every position is visited.
    pub fn find_next_node_to_visit(visited_nodes: &Vec<Vec<bool>>) -> (r: Option<(usize, usize)>)
        requires
            is_marker_grid(visited_nodes@),
        ensures
            match r {
                Some((x, y)) => {
                    &&& x < visited_nodes@.len()
                    &&& y < visited_nodes@[0]@.len()
                    &&& !visited_nodes@[x as int]@[y as int]
                    &&& forall|a: int, b: int|
                        0 <= a < visited_nodes@.len() && 0 <= b < visited_nodes@[0]@.len() && before(
                            (a, b),
                            (x as int, y as int),
                        ) ==> #[trigger] visited_nodes@[a]@[b]
                },
                None => forall|a: int, b: int|
                    0 <= a < visited_nodes@.len() && 0 <= b < visited_nodes@[0]@.len()
                        ==> #[trigger] visited_nodes@[a]@[b],
            },
    {
        let dim_x = visited_nodes.len();
        let dim_y = visited_nodes[0].len();
        for x in 0..dim_x
            invariant
                is_marker_grid(visited_nodes@),
                dim_x == visited_nodes@.len(),
                dim_y == visited_nodes@[0]@.len(),
                forall|a: int, b: int|
                    0 <= a < x && 0 <= b < dim_y ==> #[trigger] visited_nodes@[a]@[b],
        {
            for y in 0..dim_y
                invariant
                    is_marker_grid(visited_nodes@),
                    dim_x == visited_nodes@.len(),
                    dim_y == visited_nodes@[0]@.len(),
                    x < dim_x,
                    forall|a: int, b: int|
                        0 <= a < dim_x && 0 <= b < dim_y && before((a, b), (x as int, y as int))
                            ==> #[trigger] visited_nodes@[a]@[b],
            {
                if !visited_nodes[x][y] {
                    return Some((x, y));
                }
            }
        }
        None
    }
    /// Gives the cell at `coords` to `owner`. A cell that is already owned
    /// is overwritten: callers pick their moves among the unowned cells.
    /// Off-board coordinates and the unowned marker are refused, and the
    /// board is then left as it was.
    pub fn make_move(&mut self, coords: (usize, usize), owner: Ownership) -> (r: Result<(), BoardError>)
        requires
            old(self).wf(),
        ensures
            final(self).wf(),
            !old(self).in_bounds(coords.0 as int, coords.1 as int) ==> r == Err::<(), BoardError>(
                BoardError::InvalidCoordinate,
            ) && *final(self) == *old(self),
            old(self).in_bounds(coords.0 as int, coords.1 as int) && owner == Ownership::Unowned ==> r == Err::<
                (),
                BoardError,
            >(BoardError::InvalidPlayer) && *final(self) == *old(self),
            old(self).in_bounds(coords.0 as int, coords.1 as int) && owner != Ownership::Unowned ==> {
                &&& r == Ok::<(), BoardError>(())
                &&& final(self).dim_x == old(self).dim_x
                &&& final(self).dim_y == old(self).dim_y
                &&& final(self).owner(coords.0 as int, coords.1 as int) == owner
                &&& forall|x: int, y: int|
                    #![trigger final(self).cell(x, y)]
                    final(self).in_bounds(x, y) && !(x == coords.0 && y == coords.1) ==> final(self).cell(x, y) == old(
                        self,
                    ).cell(x, y)
            },
    {
        let (x, y) = coords;
        if x >= self.dim_x || y >= self.dim_y {
            return Err(BoardError::InvalidCoordinate);
        }
        if owner == Ownership::Unowned {
            return Err(BoardError::InvalidPlayer);
        }
        let ghost before = self.cells@;
        self.cells[x][y].ownership = owner;
        proof {
            assert(self.cells@ == before.update(x as int, self.cells@[x as int]));
            assert forall|a: int, b: int|
                #![trigger self.cells@[a]@[b]]
                self.in_bounds(a, b) implies self.cell(a, b).x == a && self.cell(a, b).y == b by {
                assert(before[a]@[b].x == a);
            }
        }
        Ok(())
    }
    /// How many hex neighbours a cell has on a board at least two cells
    /// wide and high: six inside, four on an edge away from the corners,
    /// three at the two corners where the edges meet at an obtuse angle
    /// (bottom left, top right) and two at the other two corners.
    pub proof fn lemma_neighbour_count(&self, x: int, y: int)
        requires
            self.dim_x >= 2,
            self.dim_y >= 2,
            self.in_bounds(x, y),
        ensures
            0 < x < self.dim_x - 1 && 0 < y < self.dim_y - 1 ==> self.neighbours(x, y).len() == 6,
            (x == 0 || x == self.dim_x - 1 || y == 0 || y == self.dim_y - 1) && (0 < x < self.dim_x - 1 || 0 < y
                < self.dim_y - 1) ==> self.neighbours(x, y).len() == 4,
            (x == 0 && y == 0) || (x == self.dim_x - 1 && y == self.dim_y - 1) ==> self.neighbours(x, y).len() == 3,
            (x == self.dim_x - 1 && y == 0) || (x == 0 && y == self.dim_y - 1) ==> self.neighbours(x, y).len() == 2,
    {
        let cs = candidates(x, y);
        reveal_with_fuel(Board::cells_among, 7);
        assert(cs.drop_last().drop_last().drop_last().drop_last().drop_last().drop_last() =~= seq![]);
        assert(cs.drop_last() =~= seq![(x - 1, y), (x + 1, y), (x, y - 1), (x, y + 1), (x - 1, y - 1)]);
        assert(cs.drop_last().drop_last() =~= seq![(x - 1, y), (x + 1, y), (x, y - 1), (x, y + 1)]);
        assert(cs.drop_last().drop_last().drop_last() =~= seq![(x - 1, y), (x + 1, y), (x, y - 1)]);
        assert(cs.drop_last().drop_last().drop_last().drop_last() =~= seq![(x - 1, y), (x + 1, y)]);
        assert(cs.drop_last().drop_last().drop_last().drop_last().drop_last() =~= seq![(x - 1, y)]);
    }
}

} // verus!
