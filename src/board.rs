use vstd::prelude::*;

use crate::snake::Position;
use crate::Items;

verus! {

/// The side length of a board when none is chosen.
pub const DEFAULT: usize = 16;

/// True where (x, y) lies on the outer ring of a `max_x` by `max_y` board.
pub open spec fn on_ring(x: int, y: int, max_x: int, max_y: int) -> bool {
    x == 0 || x == max_x - 1 || y == 0 || y == max_y - 1
}

/// True where a cell of the outer ring falls inside a gate: within two cells of
/// the middle of a side column or of the top or bottom row.
pub open spec fn in_gate(x: int, y: int, max_x: int, max_y: int) -> bool {
    ||| (x == 0 || x == max_x - 1) && max_y / 2 - 2 <= y <= max_y / 2 + 2
    ||| (y == 0 || y == max_y - 1) && max_x / 2 - 2 <= x <= max_x / 2 + 2
}

/// What a cell of a freshly built board holds.
pub open spec fn initial_cell(x: int, y: int, max_x: int, max_y: int, gates: bool) -> Items {
    if on_ring(x, y, max_x, max_y) && !(gates && in_gate(x, y, max_x, max_y)) {
        Items::WALL
    } else {
        Items::EMPTY
    }
}

/// True of the two cell kinds that a snake's body leaves on the board.
pub open spec fn is_snake(k: Items) -> bool {
    k == Items::SNAKE || k == Items::OSNAKE
}

/// True where `rows` is a `max_x` by `max_y` grid laid out as in a fresh board.
pub open spec fn is_fresh_grid(rows: Seq<Vec<Items>>, max_x: int, max_y: int, gates: bool) -> bool {
    &&& rows.len() == max_y
    &&& forall|y: int| 0 <= y < max_y ==> #[trigger] rows[y]@.len() == max_x
    &&& forall|y: int, x: int|
        0 <= y < max_y && 0 <= x < max_x ==> #[trigger] rows[y]@[x] == initial_cell(
            x,
            y,
            max_x,
            max_y,
            gates,
        )
}

/// Builds a board whose outer ring is a solid wall.
fn board_ngates(size_x: usize, size_y: usize) -> (board: Vec<Vec<Items>>)
    ensures
        is_fresh_grid(board@, size_x as int, size_y as int, false),
{
    let mut board: Vec<Vec<Items>> = Vec::new();
    let mut y_pos: usize = 0;
    while y_pos < size_y
        invariant
            y_pos <= size_y,
            board@.len() == y_pos,
            forall|y: int| 0 <= y < y_pos ==> #[trigger] board@[y]@.len() == size_x,
            forall|y: int, x: int|
                0 <= y < y_pos && 0 <= x < size_x ==> #[trigger] board@[y]@[x] == initial_cell(
                    x,
                    y,
                    size_x as int,
                    size_y as int,
                    false,
                ),
        decreases size_y - y_pos,
    {
        let mut row: Vec<Items> = Vec::new();
        let mut x_pos: usize = 0;
        while x_pos < size_x
            invariant
                x_pos <= size_x,
                y_pos < size_y,
                row@.len() == x_pos,
                forall|x: int|
                    0 <= x < x_pos ==> #[trigger] row@[x] == initial_cell(
                        x,
                        y_pos as int,
                        size_x as int,
                        size_y as int,
                        false,
                    ),
            decreases size_x - x_pos,
        {
            if x_pos == size_x - 1 || x_pos == 0 {
                row.push(Items::WALL);
            } else if y_pos == size_y - 1 || y_pos == 0 {
                row.push(Items::WALL);
            } else {
                row.push(Items::EMPTY);
            }
            x_pos = x_pos + 1;
        }
        board.push(row);
        y_pos = y_pos + 1;
    }
    board
}

/// Builds a board whose outer ring has a gate in the middle of each edge.
fn board_gates(size_x: usize, size_y: usize) -> (board: Vec<Vec<Items>>)
    ensures
        is_fresh_grid(board@, size_x as int, size_y as int, true),
{
    let mut board: Vec<Vec<Items>> = Vec::new();
    let mut y_pos: usize = 0;
    while y_pos < size_y
        invariant
            y_pos <= size_y,
            board@.len() == y_pos,
            forall|y: int| 0 <= y < y_pos ==> #[trigger] board@[y]@.len() == size_x,
            forall|y: int, x: int|
                0 <= y < y_pos && 0 <= x < size_x ==> #[trigger] board@[y]@[x] == initial_cell(
                    x,
                    y,
                    size_x as int,
                    size_y as int,
                    true,
                ),
        decreases size_y - y_pos,
    {
        let mut row: Vec<Items> = Vec::new();
        let mut x_pos: usize = 0;
        while x_pos < size_x
            invariant
                x_pos <= size_x,
                y_pos < size_y,
                row@.len() == x_pos,
                forall|x: int|
                    0 <= x < x_pos ==> #[trigger] row@[x] == initial_cell(
                        x,
                        y_pos as int,
                        size_x as int,
                        size_y as int,
                        true,
                    ),
            decreases size_x - x_pos,
        {
            // the windows are written without a subtraction that could go below zero
            let side = x_pos == size_x - 1 || x_pos == 0;
            let end = y_pos == size_y - 1 || y_pos == 0;
            let side_gate = side && y_pos <= size_y / 2 + 2 && size_y / 2 <= y_pos + 2;
            let end_gate = end && x_pos <= size_x / 2 + 2 && size_x / 2 <= x_pos + 2;
            if (side || end) && !(side_gate || end_gate) {
                row.push(Items::WALL);
            } else {
                row.push(Items::EMPTY);
            }
            x_pos = x_pos + 1;
        }
        board.push(row);
        y_pos = y_pos + 1;
    }
    board
}

/// Where a step that went one cell past an edge lands: on the opposite edge.
pub open spec fn wrapped(pos: Position, max_x: int, max_y: int) -> Position {
    if pos.x == max_x {
        Position { x: 0, y: pos.y }
    } else if pos.y == max_y {
        Position { x: pos.x, y: 0 }
    } else if pos.x < 0 {
        Position { x: (max_x - 1) as isize, y: pos.y }
    } else if pos.y < 0 {
        Position { x: pos.x, y: (max_y - 1) as isize }
    } else {
        pos
    }
}

/// On a board built without gates every cell of the outer ring is a wall, and no
/// cell inside it is.
pub proof fn lemma_solid_ring(board: &Board)
    requires
        board.wf(),
        board.is_fresh(false),
    ensures
        forall|pos: Position|
            board.in_bounds(pos) ==> (#[trigger] board.at(pos) == Items::WALL <==> on_ring(
                pos.x as int,
                pos.y as int,
                board.width(),
                board.height(),
            )),
{
}

/// On a board built with gates no cell within two of the middle of an edge is a
/// wall.
pub proof fn lemma_open_gates(board: &Board)
    requires
        board.wf(),
        board.is_fresh(true),
    ensures
        forall|pos: Position|
            board.in_bounds(pos) && (pos.x == 0 || pos.x == board.width() - 1) && board.height() / 2
                - 2 <= pos.y <= board.height() / 2 + 2 ==> #[trigger] board.at(pos) != Items::WALL,
        forall|pos: Position|
            board.in_bounds(pos) && (pos.y == 0 || pos.y == board.height() - 1) && board.width()
                / 2 - 2 <= pos.x <= board.width() / 2 + 2 ==> #[trigger] board.at(pos)
                != Items::WALL,
{
}

/// A step one cell past an edge lands on the opposite edge, in the same row or
/// column; a position on the board stays where it is.
pub proof fn lemma_wrap(board: &Board, pos: Position)
    requires
        board.wf(),
    ensures
        pos.x == board.width() && 0 <= pos.y < board.height() ==> wrapped(
            pos,
            board.width(),
            board.height(),
        ) == (Position { x: 0, y: pos.y }),
        pos.x == -1 && 0 <= pos.y < board.height() ==> wrapped(pos, board.width(), board.height())
            == (Position { x: (board.width() - 1) as isize, y: pos.y }),
        pos.y == board.height() && 0 <= pos.x < board.width() ==> wrapped(
            pos,
            board.width(),
            board.height(),
        ) == (Position { x: pos.x, y: 0 }),
        pos.y == -1 && 0 <= pos.x < board.width() ==> wrapped(pos, board.width(), board.height())
            == (Position { x: pos.x, y: (board.height() - 1) as isize }),
        board.in_bounds(pos) ==> wrapped(pos, board.width(), board.height()) == pos,
{
}

/// Contains the entire board, with interactions with it
pub struct Board {
    board: Vec<Vec<Items>>,
    max_x: usize,
    max_y: usize,
}

impl Board {
    /// The width of the board.
    pub closed spec fn width(&self) -> int {
        self.max_x as int
    }

    /// The height of the board.
    pub closed spec fn height(&self) -> int {
        self.max_y as int
    }

    /// The cells, row by row.
    pub closed spec fn grid(&self) -> Seq<Seq<Items>> {
        self.board@.map_values(|row: Vec<Items>| row@)
    }

    /// The board is a `width` by `height` grid whose coordinates fit in an `isize`.
    pub closed spec fn wf(&self) -> bool {
        &&& 3 <= self.max_x <= isize::MAX
        &&& 3 <= self.max_y <= isize::MAX
        &&& self.board@.len() == self.max_y
        &&& forall|y: int| 0 <= y < self.max_y ==> #[trigger] self.board@[y]@.len() == self.max_x
    }

    pub open spec fn in_bounds(&self, pos: Position) -> bool {
        0 <= pos.x < self.width() && 0 <= pos.y < self.height()
    }

    /// What the cell at `pos` holds.
    pub open spec fn at(&self, pos: Position) -> Items {
        self.grid()[pos.y as int][pos.x as int]
    }

    /// The grid with the cell at `pos` replaced by `k`.
    pub open spec fn grid_with(&self, pos: Position, k: Items) -> Seq<Seq<Items>> {
        self.grid().update(pos.y as int, self.grid()[pos.y as int].update(pos.x as int, k))
    }

    /// The in-bounds cells that hold `k`.
    pub open spec fn cells_of(&self, k: Items) -> Set<Position> {
        Set::new(|pos: Position| self.in_bounds(pos) && self.at(pos) == k)
    }

    /// After `pos` of `before` was set to `k`, each cell of `after` holds what it
    /// held, but the one at `pos`.
    pub proof fn lemma_write(before: &Board, after: &Board, pos: Position, k: Items)
        requires
            before.wf(),
            after.wf(),
            before.in_bounds(pos),
            after.width() == before.width(),
            after.height() == before.height(),
            after.grid() == before.grid_with(pos, k),
        ensures
            after.at(pos) == k,
            forall|q: Position|
                #[trigger] after.at(q) == if q == pos {
                    k
                } else {
                    before.at(q)
                } || !after.in_bounds(q),
            forall|j: Items|
                #[trigger] after.cells_of(j) == if j == k {
                    before.cells_of(j).insert(pos)
                } else if before.at(pos) == j {
                    before.cells_of(j).remove(pos)
                } else {
                    before.cells_of(j)
                },
    {
        before.lemma_grid();
        assert forall|q: Position| #[trigger]
            after.at(q) == if q == pos {
                k
            } else {
                before.at(q)
            } || !after.in_bounds(q) by {
            if after.in_bounds(q) && q != pos {
                if q.y != pos.y {
                } else {
                    assert(q.x != pos.x);
                }
            }
        }
        assert forall|j: Items|
            #[trigger] after.cells_of(j) == if j == k {
                before.cells_of(j).insert(pos)
            } else if before.at(pos) == j {
                before.cells_of(j).remove(pos)
            } else {
                before.cells_of(j)
            } by {
            let expected = if j == k {
                before.cells_of(j).insert(pos)
            } else if before.at(pos) == j {
                before.cells_of(j).remove(pos)
            } else {
                before.cells_of(j)
            };
            assert forall|q: Position| after.cells_of(j).contains(q) <==> expected.contains(q) by {
                assert(after.at(q) == if q == pos {
                    k
                } else {
                    before.at(q)
                } || !after.in_bounds(q));
            }
            assert(after.cells_of(j) =~= expected);
        }
    }

    /// True where each cell holds what a fresh board of this size holds.
    pub open spec fn is_fresh(&self, gates: bool) -> bool {
        forall|pos: Position|
            self.in_bounds(pos) ==> #[trigger] self.at(pos) == initial_cell(
                pos.x as int,
                pos.y as int,
                self.width(),
                self.height(),
                gates,
            )
    }

    /// The sizes of a well-formed board.
    pub proof fn lemma_dims(&self)
        requires
            self.wf(),
        ensures
            3 <= self.width() <= isize::MAX,
            3 <= self.height() <= isize::MAX,
    {
    }

    proof fn lemma_grid(&self)
        requires
            self.wf(),
        ensures
            self.grid().len() == self.height(),
            forall|y: int| 0 <= y < self.height() ==> #[trigger] self.grid()[y].len() == self.width(),
            forall|y: int| 0 <= y < self.height() ==> #[trigger] self.grid()[y] == self.board@[y]@,
    {
    }

    /// Creates a new board, and populates it
    pub fn new(size_x: usize, size_y: usize, gates: bool) -> (r: Self)
        requires
            3 <= size_x <= isize::MAX,
            3 <= size_y <= isize::MAX,
        ensures
            r.wf(),
            r.width() == size_x,
            r.height() == size_y,
            r.is_fresh(gates),
    {
        let board = if gates {
            board_gates(size_x, size_y)
        } else {
            board_ngates(size_x, size_y)
        };
        let r = Self { board, max_x: size_x, max_y: size_y };
        assert forall|pos: Position| r.in_bounds(pos) implies #[trigger] r.at(pos) == initial_cell(
            pos.x as int,
            pos.y as int,
            r.width(),
            r.height(),
            gates,
        ) by {
            assert(r.grid()[pos.y as int] == board@[pos.y as int]@);
        }
        r
    }

    pub fn get_max_size(&self) -> (r: (usize, usize))
        ensures
            r.0 == self.width(),
            r.1 == self.height(),
    {
        (self.max_x, self.max_y)
    }

    /// Checks if the cell at a position holds the given item
    pub fn check_position(&self, pos: &Position, ident: &Items) -> (r: bool)
        requires
            self.wf(),
            self.in_bounds(*pos),
        ensures
            r == (self.at(*pos) == *ident),
    {
        proof {
            self.lemma_grid();
        }
        self.board[pos.y as usize][pos.x as usize] == *ident
    }

    /// Writes `change` into the cell at `pos`; the caller has checked `pos`.
    fn set_cell(&mut self, pos: &Position, change: Items)
        requires
            old(self).wf(),
            old(self).in_bounds(*pos),
        ensures
            final(self).wf(),
            final(self).width() == old(self).width(),
            final(self).height() == old(self).height(),
            final(self).grid() == old(self).grid_with(*pos, change),
    {
        proof {
            self.lemma_grid();
        }
        let y = pos.y as usize;
        let x = pos.x as usize;
        self.board[y].set(x, change);
        proof {
            assert(self.grid() =~= old(self).grid_with(*pos, change));
        }
    }

    /// Changes a position to another if it is neither a wall nor part of a snake
    /// Returns true if the position changes, else false
    pub fn change_position(&mut self, pos: &Position, change: Items) -> (r: bool)
        requires
            old(self).wf(),
            old(self).in_bounds(*pos),
        ensures
            final(self).wf(),
            final(self).width() == old(self).width(),
            final(self).height() == old(self).height(),
            r == !(old(self).at(*pos) == Items::WALL || is_snake(old(self).at(*pos))),
            r ==> final(self).grid() == old(self).grid_with(*pos, change),
            !r ==> *final(self) == *old(self),
    {
        if !(self.check_position(pos, &Items::WALL) || self.check_position(pos, &Items::SNAKE)
            || self.check_position(pos, &Items::OSNAKE)) {
            self.set_cell(pos, change);
            true
        } else {
            false
        }
    }

    /// Empties a position unless it is a wall
    /// Returns true if the position changes, else false
    pub fn remove_position(&mut self, pos: &Position) -> (r: bool)
        requires
            old(self).wf(),
            old(self).in_bounds(*pos),
        ensures
            final(self).wf(),
            final(self).width() == old(self).width(),
            final(self).height() == old(self).height(),
            r == (old(self).at(*pos) != Items::WALL),
            r ==> final(self).grid() == old(self).grid_with(*pos, Items::EMPTY),
            !r ==> *final(self) == *old(self),
    {
        if !self.check_position(pos, &Items::WALL) {
            self.set_cell(pos, Items::EMPTY);
            true
        } else {
            false
        }
    }

    /// Used to get a position that overflows the board
    pub fn get_overflow_pos(&self, pos: Position) -> (r: Position)
        requires
            self.wf(),
        ensures
            r == wrapped(pos, self.width(), self.height()),
    {
        if pos.x == (self.max_x as isize) {
            Position::new(0, pos.y)
        } else if pos.y == (self.max_y as isize) {
            Position::new(pos.x, 0)
        } else if pos.x < 0 {
            Position::new((self.max_x - 1) as isize, pos.y)
        } else if pos.y < 0 {
            Position::new(pos.x, (self.max_y - 1) as isize)
        } else {
            pos
        }
    }

    /// Returns the underlying vectors
    pub fn get_vec(&self) -> (r: &Vec<Vec<Items>>)
        requires
            self.wf(),
        ensures
            r@.len() == self.height(),
            forall|y: int| 0 <= y < self.height() ==> #[trigger] r@[y]@.len() == self.width(),
            forall|y: int| 0 <= y < self.height() ==> #[trigger] r@[y]@ == self.grid()[y],
    {
        &self.board
    }
}

impl Default for Board {
    fn default() -> (r: Self)
        ensures
            r.wf(),
            r.width() == DEFAULT,
            r.height() == DEFAULT,
            r.is_fresh(false),
    {
        Self::new(DEFAULT, DEFAULT, false)
    }
}

} // verus!
