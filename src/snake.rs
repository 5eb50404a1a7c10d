use vstd::prelude::*;

use std::collections::VecDeque;

use crate::board::{wrapped, Board};
use crate::controller::{Directions, MoveOpt};
use crate::Items;

verus! {

/// A cell coordinate; signed so that a step may leave the board before it is wrapped.
#[derive(PartialEq, Eq, Structural, PartialOrd, Ord, Clone, Copy, Debug)]
pub struct Position {
    pub x: isize,
    pub y: isize,
}

impl Position {
    pub fn new(x: isize, y: isize) -> (r: Position)
        ensures
            r.x == x,
            r.y == y,
    {
        Position { x, y }
    }
}

/// What came of a move: something to report, a collision, or nothing.
#[derive(Debug, PartialEq, PartialOrd)]
pub enum Happen<T> {
    Done(T),
    Break,
    Nothing,
}

/// The heading that points the other way.
pub open spec fn opposite_spec(d: Directions) -> Directions {
    match d {
        Directions::LEFT => Directions::RIGHT,
        Directions::RIGHT => Directions::LEFT,
        Directions::UP => Directions::DOWN,
        Directions::DOWN => Directions::UP,
    }
}

/// The cell next to `pos` in heading `d`, before any wrapping.
pub open spec fn step_from(pos: Position, d: Directions) -> Position {
    match d {
        Directions::UP => Position { x: pos.x, y: (pos.y - 1) as isize },
        Directions::DOWN => Position { x: pos.x, y: (pos.y + 1) as isize },
        Directions::LEFT => Position { x: (pos.x - 1) as isize, y: pos.y },
        Directions::RIGHT => Position { x: (pos.x + 1) as isize, y: pos.y },
    }
}

/// The heading a snake takes on input `opt` while heading `current`: a turn is
/// taken unless it would reverse the snake.
pub open spec fn turned(current: Directions, opt: MoveOpt<Directions>) -> Directions {
    match opt {
        MoveOpt::Go(d) => if current != opposite_spec(d) {
            d
        } else {
            current
        },
        _ => current,
    }
}

/// A size after one more fruit: one more, but never past the largest `usize`.
pub open spec fn grown(size: nat) -> nat {
    if size < usize::MAX {
        size + 1
    } else {
        size
    }
}

/// A turn into the heading opposite the current one is ignored; any other turn,
/// the current heading included, is taken.
pub proof fn lemma_turn(current: Directions, d: Directions)
    ensures
        turned(current, MoveOpt::Go(d)) == if d == opposite_spec(current) {
            current
        } else {
            d
        },
{
}

/// Growth law for one tick of a bare snake: where the body of `s0` holds
/// min(`ticks` + 1, 4 + `eaten`) cells and its size is 4 + `eaten`, a move to a
/// new head (`s1`, one more in size where `ate`) followed by `get_back` (`s2`)
/// leaves a body of min(`ticks` + 2, 4 + `eaten` + 1 where `ate`) cells.
pub proof fn lemma_growth_tick(s0: Snake, s1: Snake, s2: Snake, ticks: nat, eaten: nat, ate: bool)
    requires
        4 + eaten + 1 < usize::MAX,
        s0.size() == 4 + eaten,
        s0.body().len() == if ticks + 1 < 4 + eaten {
            ticks + 1
        } else {
            4 + eaten
        },
        s1.body().len() == s0.body().len() + 1,
        s1.size() == if ate {
            grown(s0.size())
        } else {
            s0.size()
        },
        s2.size() == s1.size(),
        s2.body().len() == if s1.body().len() > s1.size() {
            s1.body().len() - 1
        } else {
            s1.body().len() as int
        },
    ensures
        ({
            let eaten1: nat = if ate {
                eaten + 1
            } else {
                eaten
            };
            &&& s2.size() == 4 + eaten1
            &&& s2.body().len() == if ticks + 2 < 4 + eaten1 {
                ticks + 2
            } else {
                4 + eaten1
            }
        }),
{
}

/// True where `i` is the index of the first entry of `fruits` equal to `entry`.
pub open spec fn first_match(fruits: Seq<(Position, Items)>, entry: (Position, Items), i: int) -> bool {
    &&& 0 <= i < fruits.len()
    &&& fruits[i] == entry
    &&& forall|j: int| 0 <= j < i ==> fruits[j] != entry
}

/// A player's snake: its head, its body and how long it may grow
pub struct Snake {
    pos: Position,
    tail: VecDeque<Position>,
    size: usize,
    dirr: Directions,
    snake_self: Items,
    fruit: Items,
}

impl Snake {
    /// The body is never empty and starts at the head, and the size is at least
    /// the starting four.
    pub open spec fn wf(&self) -> bool {
        &&& self.body().len() >= 1
        &&& self.body()[0] == self.head()
        &&& self.size() >= 4
    }

    /// The cell the head is on.
    pub closed spec fn head(&self) -> Position {
        self.pos
    }

    /// The cells of the body, head first.
    pub closed spec fn body(&self) -> Seq<Position> {
        self.tail@
    }

    /// How many cells the body keeps.
    pub closed spec fn size(&self) -> nat {
        self.size as nat
    }

    /// The heading.
    pub closed spec fn dir(&self) -> Directions {
        self.dirr
    }

    /// The cell kind this snake leaves on the board.
    pub closed spec fn kind(&self) -> Items {
        self.snake_self
    }

    /// The fruit kind this snake may eat.
    pub closed spec fn fruit_kind(&self) -> Items {
        self.fruit
    }

    /// The head is far enough from the ends of `isize` for a step.
    pub open spec fn steps_safely(&self) -> bool {
        isize::MIN < self.head().x < isize::MAX && isize::MIN < self.head().y < isize::MAX
    }

    /// The cell the head moves to next on `board`.
    pub open spec fn next_pos(&self, board: &Board) -> Position {
        wrapped(step_from(self.head(), self.dir()), board.width(), board.height())
    }

    /// Creates a new [`Snake`], heading left with a body of one cell.
    pub fn new(start_pos: Position, snake_self: Items, fruit: Items) -> (r: Self)
        ensures
            r.wf(),
            r.head() == start_pos,
            r.body() == seq![start_pos],
            r.size() == 4,
            r.dir() == Directions::LEFT,
            r.kind() == snake_self,
            r.fruit_kind() == fruit,
    {
        let mut tail = VecDeque::new();
        tail.push_front(start_pos);
        Snake { pos: start_pos, tail, size: 4, dirr: Directions::LEFT, snake_self, fruit }
    }

    /// Drops the last cell of the body once the body is longer than its size,
    /// and returns it
    pub fn get_back(&mut self) -> (r: Option<Position>)
        ensures
            old(self).wf() ==> final(self).wf(),
            final(self).head() == old(self).head(),
            final(self).size() == old(self).size(),
            final(self).dir() == old(self).dir(),
            final(self).kind() == old(self).kind(),
            final(self).fruit_kind() == old(self).fruit_kind(),
            old(self).body().len() > old(self).size() ==> {
                &&& r == Some(old(self).body().last())
                &&& final(self).body() == old(self).body().drop_last()
            },
            old(self).body().len() <= old(self).size() ==> {
                &&& r == None::<Position>
                &&& final(self).body() == old(self).body()
            },
    {
        if self.tail.len() > self.size {
            self.tail.pop_back()
        } else {
            None
        }
    }

    /// Turns the snake as the input asks, unless that would reverse it
    pub fn mover(&mut self, opt: MoveOpt<Directions>)
        ensures
            old(self).wf() ==> final(self).wf(),
            final(self).dir() == turned(old(self).dir(), opt),
            final(self).head() == old(self).head(),
            final(self).body() == old(self).body(),
            final(self).size() == old(self).size(),
            final(self).kind() == old(self).kind(),
            final(self).fruit_kind() == old(self).fruit_kind(),
    {
        if let MoveOpt::Go(new_dirr) = opt {
            if self.dirr != opposite(&new_dirr) {
                self.dirr = new_dirr
            }
        }
    }

    /// Grows the snake by one cell; the size stops at the largest `usize`
    pub fn eat(&mut self) -> (r: bool)
        ensures
            old(self).wf() ==> final(self).wf(),
            r,
            final(self).size() == grown(old(self).size()),
            final(self).head() == old(self).head(),
            final(self).body() == old(self).body(),
            final(self).dir() == old(self).dir(),
            final(self).kind() == old(self).kind(),
            final(self).fruit_kind() == old(self).fruit_kind(),
    {
        self.size = self.size.saturating_add(1);
        true
    }

    pub fn fruit(&self) -> (r: &Items)
        ensures
            *r == self.fruit_kind(),
    {
        &self.fruit
    }

    pub fn get_pos(&self) -> (r: Position)
        ensures
            r == self.head(),
    {
        self.pos
    }

    /// Moves the head to `pos`, in front of the body
    pub fn set_pos(&mut self, pos: Position)
        ensures
            old(self).wf() ==> final(self).wf(),
            final(self).head() == pos,
            final(self).body() == seq![pos] + old(self).body(),
            final(self).size() == old(self).size(),
            final(self).dir() == old(self).dir(),
            final(self).kind() == old(self).kind(),
            final(self).fruit_kind() == old(self).fruit_kind(),
    {
        self.pos = pos;
        self.tail.push_front(pos);
    }

    pub fn _get_size(&self) -> (r: usize)
        ensures
            r == self.size(),
    {
        self.size
    }

    pub fn get_items(&self) -> (r: Items)
        ensures
            r == self.kind(),
    {
        self.snake_self
    }

    /// Where the head goes next, wrapped round the board's edges
    pub(crate) fn new_pos(&self, board: &Board) -> (r: Position)
        requires
            board.wf(),
            self.steps_safely(),
        ensures
            r == self.next_pos(board),
            board.in_bounds(self.head()) ==> board.in_bounds(r),
    {
        proof {
            board.lemma_dims();
        }
        let pos = match self.dirr {
            Directions::UP => Position::new(self.pos.x, self.pos.y - 1),
            Directions::DOWN => Position::new(self.pos.x, self.pos.y + 1),
            Directions::LEFT => Position::new(self.pos.x - 1, self.pos.y),
            Directions::RIGHT => Position::new(self.pos.x + 1, self.pos.y),
        };
        board.get_overflow_pos(pos)
    }

    /// Moves the snake one cell: onto an empty cell, or onto a fruit of its own
    /// kind, which it eats; anything else is a collision and nothing moves
    pub fn move_snake(&mut self, board: &mut Board, fruits: &mut Vec<(Position, Items)>) -> (r:
        Happen<bool>)
        requires
            old(board).wf(),
            old(self).steps_safely(),
            old(board).in_bounds(old(self).next_pos(old(board))),
        ensures
            old(self).wf() ==> final(self).wf(),
            *final(board) == *old(board),
            final(self).dir() == old(self).dir(),
            final(self).kind() == old(self).kind(),
            final(self).fruit_kind() == old(self).fruit_kind(),
            ({
                let next = old(self).next_pos(old(board));
                let entry = (next, old(self).fruit_kind());
                if old(board).at(next) == Items::EMPTY {
                    &&& r == Happen::<bool>::Nothing
                    &&& final(self).head() == next
                    &&& final(self).body() == seq![next] + old(self).body()
                    &&& final(self).size() == old(self).size()
                    &&& final(fruits)@ == old(fruits)@
                } else if old(fruits)@.contains(entry) {
                    &&& r == Happen::Done(true)
                    &&& final(self).head() == next
                    &&& final(self).body() == seq![next] + old(self).body()
                    &&& final(self).size() == grown(old(self).size())
                    &&& exists|i: int|
                        first_match(old(fruits)@, entry, i) && final(fruits)@ == old(
                            fruits,
                        )@.remove(i)
                } else {
                    &&& r == Happen::<bool>::Break
                    &&& *final(self) == *old(self)
                    &&& final(fruits)@ == old(fruits)@
                }
            }),
    {
        let pos = self.new_pos(board);
        if !board.check_position(&pos, &Items::EMPTY) {
            let mut fruit_pos: usize = 0;
            while fruit_pos < fruits.len() && !(fruits[fruit_pos].0 == pos && fruits[fruit_pos].1
                == self.fruit)
                invariant
                    fruit_pos <= fruits.len(),
                    forall|j: int| 0 <= j < fruit_pos ==> fruits@[j] != (pos, self.fruit),
                decreases fruits.len() - fruit_pos,
            {
                fruit_pos = fruit_pos + 1;
            }
            if fruit_pos < fruits.len() {
                fruits.remove(fruit_pos);
                self.set_pos(pos);
                return Happen::Done(self.eat());
            }
            proof {
                assert(!old(fruits)@.contains((pos, self.fruit)));
            }
            Happen::Break
        } else {
            self.set_pos(pos);
            Happen::Nothing
        }
    }

    /// The cells of the body, head first
    pub fn get_tail(&self) -> (r: &VecDeque<Position>)
        ensures
            r@ == self.body(),
    {
        &self.tail
    }
}

/// Method used to get the opposite direction of a given direction
fn opposite(dirr: &Directions) -> (r: Directions)
    ensures
        r == opposite_spec(*dirr),
{
    match dirr {
        Directions::LEFT => Directions::RIGHT,
        Directions::RIGHT => Directions::LEFT,
        Directions::UP => Directions::DOWN,
        Directions::DOWN => Directions::UP,
    }
}

} // verus!
