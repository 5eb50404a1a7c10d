use vstd::prelude::*;

pub mod board;
pub mod controller;
pub mod game;
pub mod snake;

use board::Board;
use snake::Position;

verus! {

/// What a cell of the board holds.
#[derive(PartialEq, Eq, Structural, PartialOrd, Clone, Copy, Debug)]
pub enum Items {
    EMPTY,
    SNAKE,
    OSNAKE,
    FRUIT,
    OFRUIT,
    WALL,
}

/// How many random cells fruit placement draws before it searches the board in order.
pub const FRUIT_ATTEMPTS: usize = 64;

/// True where `pos` lies inside the outer ring of `board`.
pub open spec fn is_interior(board: &Board, pos: Position) -> bool {
    1 <= pos.x <= board.width() - 2 && 1 <= pos.y <= board.height() - 2
}

/// True where some cell inside the outer ring of `board` is empty.
pub open spec fn has_room(board: &Board) -> bool {
    exists|pos: Position| is_interior(board, pos) && #[trigger] board.at(pos) == Items::EMPTY
}

/// Relies on rand::thread_rng and rand::Rng::gen_range: a value drawn from
/// `low..high`; gen_range panics only on an empty range.
#[verifier::external_body]
fn random_in(low: usize, high: usize) -> (r: usize)
    requires
        low < high,
    ensures
        low <= r < high,
{
    rand::Rng::gen_range(&mut rand::thread_rng(), low..high)
}

/// Used to get a random position on the board, inside the walls
/// Returns that random position as a Position-type
fn get_rand_block(max_x: usize, max_y: usize) -> (r: Position)
    requires
        3 <= max_x <= isize::MAX,
        3 <= max_y <= isize::MAX,
    ensures
        1 <= r.x <= max_x - 2,
        1 <= r.y <= max_y - 2,
{
    let x = random_in(1, max_x - 1) as isize;
    let y = random_in(1, max_y - 1) as isize;
    Position::new(x, y)
}

/// True where `k` is the index of the first of `candidates` whose cell is empty.
pub open spec fn first_empty(board: &Board, candidates: Seq<Position>, k: int) -> bool {
    &&& 0 <= k < candidates.len()
    &&& board.at(candidates[k]) == Items::EMPTY
    &&& forall|j: int| 0 <= j < k ==> board.at(#[trigger] candidates[j]) != Items::EMPTY
}

/// Puts a fruit of kind `kind` on the first of `candidates` whose cell is empty,
/// and adds its entry. Returns false, and changes nothing, when none is empty.
pub fn place_on_first_empty(
    board: &mut Board,
    kind: &Items,
    fruits: &mut Vec<(Position, Items)>,
    candidates: &Vec<Position>,
) -> (r: bool)
    requires
        old(board).wf(),
        forall|i: int| 0 <= i < candidates@.len() ==> old(board).in_bounds(#[trigger] candidates@[i]),
    ensures
        final(board).wf(),
        final(board).width() == old(board).width(),
        final(board).height() == old(board).height(),
        r == exists|k: int| first_empty(old(board), candidates@, k),
        r ==> exists|k: int|
            first_empty(old(board), candidates@, k) && final(board).grid() == old(board).grid_with(
                candidates@[k],
                *kind,
            ) && final(fruits)@ == old(fruits)@.push((candidates@[k], *kind)),
        !r ==> *final(board) == *old(board) && final(fruits)@ == old(fruits)@,
{
    let mut i: usize = 0;
    while i < candidates.len()
        invariant
            board.wf(),
            *board == *old(board),
            fruits@ == old(fruits)@,
            i <= candidates@.len(),
            forall|j: int| 0 <= j < candidates@.len() ==> board.in_bounds(#[trigger] candidates@[j]),
            forall|j: int| 0 <= j < i ==> board.at(#[trigger] candidates@[j]) != Items::EMPTY,
        decreases candidates.len() - i,
    {
        let pos = candidates[i];
        if board.check_position(&pos, &Items::EMPTY) {
            board.change_position(&pos, *kind);
            fruits.push((pos, *kind));
            proof {
                assert(first_empty(old(board), candidates@, i as int));
            }
            return true;
        }
        i = i + 1;
    }
    proof {
        assert forall|k: int| !first_empty(old(board), candidates@, k) by {
            if 0 <= k < candidates@.len() {
                assert(board.at(candidates@[k]) != Items::EMPTY);
            }
        }
    }
    false
}

/// Used to set a new fruit on the board, on an empty cell inside the walls.
///
/// A few cells are drawn at random and the fruit goes on the first of them that
/// is empty; when none is, the first empty cell in row order is taken. Returns false, and changes nothing, when no cell
/// inside the walls is empty.
pub fn fruit(board: &mut Board, kind: &Items, fruits: &mut Vec<(Position, Items)>) -> (r: bool)
    requires
        old(board).wf(),
    ensures
        final(board).wf(),
        final(board).width() == old(board).width(),
        final(board).height() == old(board).height(),
        r == has_room(old(board)),
        r ==> exists|pos: Position|
            is_interior(old(board), pos) && #[trigger] old(board).at(pos) == Items::EMPTY
                && final(board).grid() == old(board).grid_with(pos, *kind) && final(fruits)@
                == old(fruits)@.push((pos, *kind)),
        !r ==> *final(board) == *old(board) && final(fruits)@ == old(fruits)@,
{
    let (max_x, max_y) = board.get_max_size();
    proof {
        board.lemma_dims();
    }
    let mut candidates: Vec<Position> = Vec::new();
    while candidates.len() < FRUIT_ATTEMPTS
        invariant
            3 <= max_x <= isize::MAX,
            3 <= max_y <= isize::MAX,
            max_x == board.width(),
            max_y == board.height(),
            forall|i: int| 0 <= i < candidates@.len() ==> is_interior(board, #[trigger] candidates@[i]),
        decreases FRUIT_ATTEMPTS - candidates.len(),
    {
        candidates.push(get_rand_block(max_x, max_y));
    }
    if place_on_first_empty(board, kind, fruits, &candidates) {
        proof {
            let k = choose|k: int|
                first_empty(old(board), candidates@, k) && final(board).grid() == old(
                    board,
                ).grid_with(candidates@[k], *kind) && fruits@ == old(fruits)@.push(
                    (candidates@[k], *kind),
                );
            assert(is_interior(old(board), candidates@[k]));
        }
        return true;
    }
    let mut y: usize = 1;
    while y + 1 < max_y
        invariant
            board.wf(),
            max_x == board.width(),
            max_y == board.height(),
            3 <= max_x <= isize::MAX,
            3 <= max_y <= isize::MAX,
            *board == *old(board),
            fruits@ == old(fruits)@,
            1 <= y < max_y,
            forall|pos: Position|
                is_interior(board, pos) && pos.y < y ==> #[trigger] board.at(pos) != Items::EMPTY,
        decreases max_y - y,
    {
        let mut x: usize = 1;
        while x + 1 < max_x
            invariant
                board.wf(),
                max_x == board.width(),
                max_y == board.height(),
                3 <= max_x <= isize::MAX,
                3 <= max_y <= isize::MAX,
                *board == *old(board),
                fruits@ == old(fruits)@,
                1 <= y < max_y - 1,
                1 <= x < max_x,
                forall|pos: Position|
                    is_interior(board, pos) && (pos.y < y || (pos.y == y && pos.x < x))
                        ==> #[trigger] board.at(pos) != Items::EMPTY,
            decreases max_x - x,
        {
            let fruit_pos = Position::new(x as isize, y as isize);
            if board.check_position(&fruit_pos, &Items::EMPTY) {
                board.change_position(&fruit_pos, *kind);
                fruits.push((fruit_pos, *kind));
                return true;
            }
            x = x + 1;
        }
        y = y + 1;
    }
    false
}

} // verus!
