use vstd::prelude::*;

use crate::board::{initial_cell, is_snake, wrapped, Board};
use crate::controller::{Directions, MoveOpt};
use crate::snake::{first_match, grown, step_from, turned, Happen, Position, Snake};
use crate::{fruit, is_interior, Items};

verus! {

/// Why a match ended.
#[derive(PartialEq, Eq, Structural, Clone, Copy, Debug)]
pub enum EndReason {
    WallOrBodyCollision,
    OpponentCollision,
    QuitRequested,
}

/// Where a match stands after a tick.
#[derive(PartialEq, Eq, Structural, Clone, Copy, Debug)]
pub enum Status {
    Running,
    Ended(EndReason),
}

/// True of the two fruit kinds.
pub open spec fn is_fruit(k: Items) -> bool {
    k == Items::FRUIT || k == Items::OFRUIT
}

/// The snake's body lies on the board: its cells are distinct and in bounds, and
/// they are exactly the cells that hold the snake's kind.
pub open spec fn tracks(board: &Board, s: &Snake) -> bool {
    &&& s.body().len() >= 1
    &&& s.body()[0] == s.head()
    &&& s.body().no_duplicates()
    &&& forall|i: int| 0 <= i < s.body().len() ==> board.in_bounds(#[trigger] s.body()[i])
    &&& board.cells_of(s.kind()) == s.body().to_set()
    &&& is_snake(s.kind())
    &&& is_fruit(s.fruit_kind())
}

/// Each fruit entry names an in-bounds cell that holds that fruit, one entry per cell.
pub open spec fn fruits_placed(board: &Board, fruits: Seq<(Position, Items)>) -> bool {
    &&& forall|i: int|
        0 <= i < fruits.len() ==> board.in_bounds(#[trigger] fruits[i].0) && board.at(fruits[i].0)
            == fruits[i].1 && is_fruit(fruits[i].1)
    &&& forall|i: int, j: int|
        0 <= i < fruits.len() && 0 <= j < fruits.len() && i != j ==> #[trigger] fruits[i].0
            != #[trigger] fruits[j].0
}

/// The cell that a snake at `head` heading `dir` moves to on `board`.
pub open spec fn next_cell(board: &Board, head: Position, dir: Directions) -> Position {
    wrapped(step_from(head, dir), board.width(), board.height())
}

/// True where a snake that eats `fk` cannot move to `next`: the cell is neither
/// empty nor a fruit of that kind.
pub open spec fn blocked_at(
    board: &Board,
    next: Position,
    fk: Items,
    fruits: Seq<(Position, Items)>,
) -> bool {
    board.at(next) != Items::EMPTY && !fruits.contains((next, fk))
}

/// True where the snake's next cell is neither empty nor a fruit it may eat.
pub open spec fn blocked(board: &Board, s: &Snake, fruits: Seq<(Position, Items)>) -> bool {
    blocked_at(board, s.next_pos(board), s.fruit_kind(), fruits)
}

/// Why a snake of kind `kind` that is blocked at `next` ends the match: the other
/// snake's body, or anything else.
pub open spec fn crash_at(board: &Board, next: Position, kind: Items) -> EndReason {
    let c = board.at(next);
    if is_snake(c) && c != kind {
        EndReason::OpponentCollision
    } else {
        EndReason::WallOrBodyCollision
    }
}

/// The grid `g` with the cell at `pos` replaced by `k`.
pub open spec fn put(g: Seq<Seq<Items>>, pos: Position, k: Items) -> Seq<Seq<Items>> {
    g.update(pos.y as int, g[pos.y as int].update(pos.x as int, k))
}

/// The grid `g` with the cell at `tail` emptied, where `trims` holds.
pub open spec fn trimmed(g: Seq<Seq<Items>>, tail: Position, trims: bool) -> Seq<Seq<Items>> {
    if trims {
        put(g, tail, Items::EMPTY)
    } else {
        g
    }
}

/// True where some cell inside the outer ring of a `w` by `h` grid is empty.
pub open spec fn grid_has_room(g: Seq<Seq<Items>>, w: int, h: int) -> bool {
    exists|p: Position|
        1 <= p.x <= w - 2 && 1 <= p.y <= h - 2 && #[trigger] g[p.y as int][p.x as int]
            == Items::EMPTY
}

/// What placing a replacement fruit of kind `fk` on the grid `marked` leaves,
/// with the fruits `fr` that remain after a meal: the fruit lands on an empty
/// cell inside the outer ring and is added last, or there is no such cell and
/// nothing is added; then the tail is trimmed as `trims` says.
pub open spec fn replaced(
    marked: Seq<Seq<Items>>,
    w: int,
    h: int,
    fr: Seq<(Position, Items)>,
    fk: Items,
    tail: Position,
    trims: bool,
    g1: Seq<Seq<Items>>,
    f1: Seq<(Position, Items)>,
) -> bool {
    ||| exists|p: Position|
        1 <= p.x <= w - 2 && 1 <= p.y <= h - 2 && #[trigger] marked[p.y as int][p.x as int]
            == Items::EMPTY && f1 == fr.push((p, fk)) && g1 == trimmed(put(marked, p, fk), tail, trims)
    ||| !grid_has_room(marked, w, h) && f1 == fr && g1 == trimmed(marked, tail, trims)
}

/// One snake's move for one tick, heading `d`: `b1`, `s1` and `f1` are the board,
/// the snake and the fruits after `s0` moved on `b0` among the fruits `f0`, and `r`
/// is what the move reports. A blocked snake changes nothing and reports its crash.
/// Otherwise the head moves to the next cell, which is marked with the snake's
/// kind; a fruit there is eaten, its entry removed, the snake grown and a
/// replacement placed; and the last cell of the body is emptied once the body is
/// longer than the size.
pub open spec fn stepped(
    b0: Board,
    s0: Snake,
    d: Directions,
    f0: Seq<(Position, Items)>,
    b1: Board,
    s1: Snake,
    f1: Seq<(Position, Items)>,
    r: Option<EndReason>,
) -> bool {
    let n = next_cell(&b0, s0.head(), d);
    let kind = s0.kind();
    let fk = s0.fruit_kind();
    &&& s1.dir() == d
    &&& s1.kind() == kind
    &&& s1.fruit_kind() == fk
    &&& if blocked_at(&b0, n, fk, f0) {
        &&& r == Some(crash_at(&b0, n, kind))
        &&& b1 == b0
        &&& s1.head() == s0.head()
        &&& s1.body() == s0.body()
        &&& s1.size() == s0.size()
        &&& f1 == f0
    } else {
        let ate = b0.at(n) != Items::EMPTY;
        let size1 = if ate {
            grown(s0.size())
        } else {
            s0.size()
        };
        let long = seq![n] + s0.body();
        let trims = long.len() > size1;
        let marked = b0.grid_with(n, kind);
        &&& r == None::<EndReason>
        &&& b1.wf()
        &&& b1.width() == b0.width()
        &&& b1.height() == b0.height()
        &&& s1.head() == n
        &&& s1.body() == if trims {
            long.drop_last()
        } else {
            long
        }
        &&& s1.size() == size1
        &&& if !ate {
            &&& f1 == f0
            &&& b1.grid() == trimmed(marked, long.last(), trims)
        } else {
            exists|i: int|
                first_match(f0, (n, fk), i) && replaced(
                    marked,
                    b0.width(),
                    b0.height(),
                    f0.remove(i),
                    fk,
                    long.last(),
                    trims,
                    b1.grid(),
                    f1,
                )
        }
    }
}

/// Why a blocked snake ends the match.
pub open spec fn crash(board: &Board, s: &Snake) -> EndReason {
    crash_at(board, s.next_pos(board), s.kind())
}

/// The smaller of two counts.
pub open spec fn min_nat(a: nat, b: nat) -> nat {
    if a < b {
        a
    } else {
        b
    }
}

proof fn lemma_push_front(s: Seq<Position>, p: Position)
    requires
        s.no_duplicates(),
        !s.contains(p),
    ensures
        (seq![p] + s).no_duplicates(),
        (seq![p] + s).to_set() == s.to_set().insert(p),
{
    let t = seq![p] + s;
    assert forall|i: int, j: int| 0 <= i < t.len() && 0 <= j < t.len() && i != j implies t[i]
        != t[j] by {
        if i == 0 {
            assert(t[j] == s[j - 1]);
        } else if j == 0 {
            assert(t[i] == s[i - 1]);
        } else {
            assert(t[i] == s[i - 1] && t[j] == s[j - 1]);
        }
    }
    assert forall|q: Position| t.to_set().contains(q) <==> s.to_set().insert(p).contains(q) by {
        if t.contains(q) {
            let i = choose|i: int| 0 <= i < t.len() && t[i] == q;
            if i > 0 {
                assert(s[i - 1] == q);
            }
        }
        if s.contains(q) {
            let i = choose|i: int| 0 <= i < s.len() && s[i] == q;
            assert(t[i + 1] == q);
        }
        assert(t[0] == p);
    }
    assert(t.to_set() =~= s.to_set().insert(p));
}

proof fn lemma_single(p: Position)
    ensures
        seq![p].to_set() == Set::<Position>::empty().insert(p),
{
    assert forall|q: Position| seq![p].to_set().contains(q) <==> q == p by {
        if q == p {
            assert(seq![p][0] == q);
        }
    }
    assert(seq![p].to_set() =~= Set::<Position>::empty().insert(p));
}

proof fn lemma_drop_last(s: Seq<Position>)
    requires
        s.no_duplicates(),
        s.len() >= 1,
    ensures
        s.drop_last().no_duplicates(),
        s.drop_last().to_set() == s.to_set().remove(s.last()),
{
    let t = s.drop_last();
    assert forall|q: Position| t.to_set().contains(q) <==> s.to_set().remove(s.last()).contains(
        q,
    ) by {
        if t.contains(q) {
            let i = choose|i: int| 0 <= i < t.len() && t[i] == q;
            assert(s[i] == q);
            assert(s[s.len() - 1] == s.last());
        }
        if s.contains(q) && q != s.last() {
            let i = choose|i: int| 0 <= i < s.len() && s[i] == q;
            assert(i != s.len() - 1);
            assert(t[i] == q);
        }
    }
    assert(t.to_set() =~= s.to_set().remove(s.last()));
}

/// What a call of `fruit` leaves: the entries still name their fruit cells, and
/// no cell of another kind has changed.
proof fn lemma_fruit_placed(
    b1: &Board,
    b2: &Board,
    f1: Seq<(Position, Items)>,
    f2: Seq<(Position, Items)>,
    fk: Items,
    placed: bool,
)
    requires
        b1.wf(),
        b2.wf(),
        b2.width() == b1.width(),
        b2.height() == b1.height(),
        fruits_placed(b1, f1),
        is_fruit(fk),
        placed ==> exists|p: Position|
            is_interior(b1, p) && #[trigger] b1.at(p) == Items::EMPTY && b2.grid() == b1.grid_with(
                p,
                fk,
            ) && f2 == f1.push((p, fk)),
        !placed ==> *b2 == *b1 && f2 == f1,
    ensures
        fruits_placed(b2, f2),
        forall|k: Items| k != fk && k != Items::EMPTY ==> #[trigger] b2.cells_of(k) == b1.cells_of(k),
        placed ==> {
            &&& f2.len() == f1.len() + 1
            &&& f2.drop_last() == f1
            &&& f2.last().1 == fk
            &&& is_interior(b1, f2.last().0)
            &&& b1.at(f2.last().0) == Items::EMPTY
            &&& forall|q: Position|
                b2.in_bounds(q) && q != f2.last().0 ==> #[trigger] b2.at(q) == b1.at(q)
        },
{
    if placed {
        let p = choose|p: Position|
            is_interior(b1, p) && #[trigger] b1.at(p) == Items::EMPTY && b2.grid() == b1.grid_with(
                p,
                fk,
            ) && f2 == f1.push((p, fk));
        Board::lemma_write(b1, b2, p, fk);
        assert(f2.drop_last() =~= f1);
        assert forall|j: int| 0 <= j < f2.len() implies b2.in_bounds(#[trigger] f2[j].0) && b2.at(
            f2[j].0,
        ) == f2[j].1 && is_fruit(f2[j].1) by {
            if j < f1.len() {
                assert(f2[j] == f1[j]);
                assert(f1[j].0 != p);
            }
        }
        assert forall|a: int, b: int|
            0 <= a < f2.len() && 0 <= b < f2.len() && a != b implies #[trigger] f2[a].0
            != #[trigger] f2[b].0 by {
            if a < f1.len() {
                assert(f2[a] == f1[a]);
            }
            if b < f1.len() {
                assert(f2[b] == f1[b]);
            }
        }
    }
}

/// Moves one snake for one tick: it moves onto an empty cell, or eats a fruit of
/// its kind and a new one is placed, and the board follows; its tail leaves the
/// board once the body is longer than its size. A blocked snake changes nothing.
fn play(board: &mut Board, snake: &mut Snake, fruits: &mut Vec<(Position, Items)>) -> (r: Option<
    EndReason,
>)
    requires
        old(board).wf(),
        tracks(old(board), old(snake)),
        fruits_placed(old(board), old(fruits)@),
        old(snake).body().len() <= old(snake).size(),
    ensures
        final(board).wf(),
        final(board).width() == old(board).width(),
        final(board).height() == old(board).height(),
        final(snake).dir() == old(snake).dir(),
        final(snake).kind() == old(snake).kind(),
        final(snake).fruit_kind() == old(snake).fruit_kind(),
        stepped(
            *old(board),
            *old(snake),
            old(snake).dir(),
            old(fruits)@,
            *final(board),
            *final(snake),
            final(fruits)@,
            r,
        ),
        blocked(old(board), old(snake), old(fruits)@) ==> {
            &&& r == Some(crash(old(board), old(snake)))
            &&& *final(board) == *old(board)
            &&& *final(snake) == *old(snake)
            &&& final(fruits)@ == old(fruits)@
        },
        !blocked(old(board), old(snake), old(fruits)@) ==> {
            &&& r == None::<EndReason>
            &&& tracks(final(board), final(snake))
            &&& fruits_placed(final(board), final(fruits)@)
            &&& final(snake).head() == old(snake).next_pos(old(board))
            &&& final(snake).size() == if old(board).at(old(snake).next_pos(old(board)))
                == Items::EMPTY {
                old(snake).size()
            } else {
                grown(old(snake).size())
            }
            &&& final(snake).body().len() == min_nat(
                old(snake).body().len() + 1,
                final(snake).size(),
            )
            &&& forall|k: Items|
                is_snake(k) && k != old(snake).kind() ==> #[trigger] final(board).cells_of(k)
                    == old(board).cells_of(k)
        },
{
    proof {
        board.lemma_dims();
        assert(board.in_bounds(snake.body()[0]));
    }
    let next = snake.new_pos(board);
    let kind = snake.get_items();
    let ghost b0 = *board;
    let ghost s0 = *snake;
    let ghost f0 = fruits@;
    let ghost mut eaten_at: int = 0;
    let ghost mut placed_at: Option<Position> = None;
    let ghost mut marked_board: Board = b0;
    proof {
        b0.lemma_dims();
        if s0.body().contains(next) {
            let i = choose|i: int| 0 <= i < s0.body().len() && s0.body()[i] == next;
            assert(s0.body().to_set().contains(next));
            assert(b0.cells_of(kind).contains(next));
        }
    }
    match snake.move_snake(board, fruits) {
        Happen::Break => {
            let rival = if kind == Items::SNAKE {
                Items::OSNAKE
            } else {
                Items::SNAKE
            };
            if board.check_position(&next, &rival) {
                return Some(EndReason::OpponentCollision);
            } else {
                return Some(EndReason::WallOrBodyCollision);
            }
        },
        Happen::Done(_) => {
            let ghost f1 = fruits@;
            proof {
                let i = choose|i: int|
                    first_match(f0, (next, s0.fruit_kind()), i) && f1 == f0.remove(i);
                eaten_at = i;
                assert(f0[i] == (next, s0.fruit_kind()));
                assert(b0.in_bounds(f0[i].0));
                assert(is_fruit(b0.at(next)));
                assert(!s0.body().contains(next));
                lemma_push_front(s0.body(), next);
                assert forall|j: int| 0 <= j < f1.len() implies #[trigger] f1[j].0 != next by {
                    if j < i {
                        assert(f1[j] == f0[j]);
                        assert(f0[j].0 != f0[i].0);
                    } else {
                        assert(f1[j] == f0[j + 1]);
                        assert(f0[j + 1].0 != f0[i].0);
                    }
                }
                assert(fruits_placed(&b0, f1)) by {
                    assert forall|a: int, b: int|
                        0 <= a < f1.len() && 0 <= b < f1.len() && a != b implies #[trigger] f1[a].0
                        != #[trigger] f1[b].0 by {
                        let a0 = if a < i {
                            a
                        } else {
                            a + 1
                        };
                        let b0i = if b < i {
                            b
                        } else {
                            b + 1
                        };
                        assert(f1[a] == f0[a0]);
                        assert(f1[b] == f0[b0i]);
                    }
                    assert forall|a: int| 0 <= a < f1.len() implies b0.in_bounds(#[trigger] f1[a].0)
                        && b0.at(f1[a].0) == f1[a].1 && is_fruit(f1[a].1) by {
                        if a < i {
                            assert(f1[a] == f0[a]);
                        } else {
                            assert(f1[a] == f0[a + 1]);
                        }
                    }
                }
            }
            board.change_position(&next, kind);
            let ghost b1 = *board;
            proof {
                Board::lemma_write(&b0, &b1, next, kind);
                assert(b1.cells_of(kind) =~= snake.body().to_set());
                assert forall|j: int| 0 <= j < f1.len() implies b1.in_bounds(#[trigger] f1[j].0)
                    && b1.at(f1[j].0) == f1[j].1 && is_fruit(f1[j].1) by {
                    assert(f1[j].0 != next);
                    assert(b1.at(f1[j].0) == b0.at(f1[j].0));
                }
            }
            let fruit_kind = *snake.fruit();
            let placed = fruit(board, &fruit_kind, fruits);
            proof {
                lemma_fruit_placed(&b1, board, f1, fruits@, fruit_kind, placed);
                assert(board.cells_of(kind) == b1.cells_of(kind));
                marked_board = b1;
                if placed {
                    let p = choose|p: Position|
                        is_interior(&b1, p) && #[trigger] b1.at(p) == Items::EMPTY && board.grid()
                            == b1.grid_with(p, fruit_kind) && fruits@ == f1.push((p, fruit_kind));
                    placed_at = Some(p);
                }
            }
        },
        Happen::Nothing => {
            proof {
                assert(!s0.body().contains(next));
                lemma_push_front(s0.body(), next);
            }
            board.change_position(&next, kind);
            proof {
                Board::lemma_write(&b0, board, next, kind);
                assert(board.cells_of(kind) =~= snake.body().to_set());
                assert forall|j: int| 0 <= j < f0.len() implies board.in_bounds(#[trigger] f0[j].0)
                    && board.at(f0[j].0) == f0[j].1 && is_fruit(f0[j].1) by {
                    assert(f0[j].0 != next);
                }
            }
        },
    }
    let ghost b2 = *board;
    let ghost s2 = *snake;
    let ghost f2 = fruits@;
    if let Some(last) = snake.get_back() {
        proof {
            lemma_drop_last(s2.body());
            assert(s2.body()[s2.body().len() - 1] == last);
            assert(b2.in_bounds(last));
            assert(s2.body().to_set().contains(last));
        }
        board.remove_position(&last);
        proof {
            Board::lemma_write(&b2, board, last, Items::EMPTY);
            assert(board.cells_of(kind) =~= snake.body().to_set());
            assert forall|j: int| 0 <= j < f2.len() implies board.in_bounds(#[trigger] f2[j].0)
                && board.at(f2[j].0) == f2[j].1 && is_fruit(f2[j].1) by {
                assert(f2[j].0 != last);
            }
            assert(snake.body()[0] == s2.body()[0]);
            assert(board.grid() == put(b2.grid(), s2.body().last(), Items::EMPTY));
        }
    }
    proof {
        let long = seq![next] + s0.body();
        let trims = long.len() > s2.size();
        let marked = b0.grid_with(next, kind);
        assert(s2.body() == long);
        assert(board.grid() == trimmed(b2.grid(), long.last(), trims));
        if b0.at(next) != Items::EMPTY {
            let w = b0.width();
            let h = b0.height();
            match placed_at {
                Some(p) => {
                    assert(marked[p.y as int][p.x as int] == Items::EMPTY);
                    assert(replaced(
                        marked,
                        w,
                        h,
                        f0.remove(eaten_at),
                        s0.fruit_kind(),
                        long.last(),
                        trims,
                        board.grid(),
                        fruits@,
                    ));
                },
                None => {
                    assert(!grid_has_room(marked, w, h)) by {
                        if grid_has_room(marked, w, h) {
                            let p = choose|p: Position|
                                1 <= p.x <= w - 2 && 1 <= p.y <= h - 2
                                    && #[trigger] marked[p.y as int][p.x as int] == Items::EMPTY;
                            assert(is_interior(&marked_board, p));
                            assert(marked_board.at(p) == Items::EMPTY);
                        }
                    }
                },
            }
        }
    }
    None
}

/// The size of a snake that has eaten `eaten` fruits: four, and one more for
/// each, up to the largest `usize`.
pub open spec fn size_after(eaten: nat) -> nat {
    min_nat(4 + eaten, usize::MAX as nat)
}

/// The length law of a snake that has moved `ticks` times and eaten `eaten` fruits.
pub open spec fn grown_by(s: &Snake, ticks: nat, eaten: nat) -> bool {
    &&& eaten <= ticks
    &&& s.size() == size_after(eaten)
    &&& s.body().len() == min_nat(ticks + 1, s.size())
}

/// True where `s` may start a match as the snake of kind `kind` on a fresh
/// `size_x` by `size_y` board: it is new, it stands on an empty cell, and it eats
/// a fruit kind.
pub open spec fn may_start(size_x: int, size_y: int, gates: bool, s: &Snake, kind: Items) -> bool {
    &&& s.kind() == kind
    &&& is_fruit(s.fruit_kind())
    &&& s.body() == seq![s.head()]
    &&& s.size() == 4
    &&& 0 <= s.head().x < size_x
    &&& 0 <= s.head().y < size_y
    &&& initial_cell(s.head().x as int, s.head().y as int, size_x, size_y, gates) == Items::EMPTY
}

/// Tests `may_start` on a fresh board.
fn can_start(board: &Board, s: &Snake, kind: Items, Ghost(gates): Ghost<bool>) -> (r: bool)
    requires
        board.wf(),
        board.is_fresh(gates),
    ensures
        r == may_start(board.width(), board.height(), gates, s, kind),
{
    let (max_x, max_y) = board.get_max_size();
    proof {
        board.lemma_dims();
    }
    let head = s.get_pos();
    let fk = *s.fruit();
    if s.get_items() != kind || !(fk == Items::FRUIT || fk == Items::OFRUIT) || s._get_size() != 4 {
        return false;
    }
    if s.get_tail().len() != 1 || s.get_tail()[0] != head {
        return false;
    }
    proof {
        assert(s.body() =~= seq![s.head()]);
    }
    if head.x < 0 || head.x >= max_x as isize || head.y < 0 || head.y >= max_y as isize {
        return false;
    }
    board.check_position(&head, &Items::EMPTY)
}

/// What a tick reports for what the last snake's move reported.
pub open spec fn status_of(r: Option<EndReason>) -> Status {
    match r {
        Some(e) => Status::Ended(e),
        None => Status::Running,
    }
}

/// `s1` is `s0` turned as `opt` asks, and otherwise unchanged.
pub open spec fn only_turned(s0: Snake, s1: Snake, opt: MoveOpt<Directions>) -> bool {
    &&& s1.dir() == turned(s0.dir(), opt)
    &&& s1.head() == s0.head()
    &&& s1.body() == s0.body()
    &&& s1.size() == s0.size()
    &&& s1.kind() == s0.kind()
    &&& s1.fruit_kind() == s0.fruit_kind()
}

/// Growth law: a snake that has moved `ticks` times and eaten `eaten` fruits has
/// size 4 + `eaten`, and its body, like the set of board cells of its kind, holds
/// min(`ticks` + 1, 4 + `eaten`) cells.
pub proof fn lemma_growth(board: &Board, s: &Snake, ticks: nat, eaten: nat)
    requires
        tracks(board, s),
        grown_by(s, ticks, eaten),
        4 + eaten < usize::MAX,
    ensures
        eaten <= ticks,
        s.size() == 4 + eaten,
        s.body().len() == min_nat(ticks + 1, 4 + eaten),
        board.cells_of(s.kind()).finite(),
        board.cells_of(s.kind()).len() == min_nat(ticks + 1, 4 + eaten),
{
    s.body().unique_seq_to_set();
    vstd::seq_lib::seq_to_set_is_finite(s.body());
}

/// The fruit kinds a match starts with: player one's, then player two's where
/// the two eat different kinds.
pub open spec fn start_kinds(p1: Snake, p2: Option<Snake>) -> Seq<Items> {
    match p2 {
        Some(t) => if t.fruit_kind() != p1.fruit_kind() {
            seq![p1.fruit_kind(), t.fruit_kind()]
        } else {
            seq![p1.fruit_kind()]
        },
        None => seq![p1.fruit_kind()],
    }
}

/// True where `pos` is the head of one of the snakes.
pub open spec fn is_head(pos: Position, p1: Snake, p2: Option<Snake>) -> bool {
    pos == p1.head() || match p2 {
        Some(t) => pos == t.head(),
        None => false,
    }
}

/// How a match starts: one fruit entry for each of `start_kinds`, in that order,
/// inside the outer ring (all of them on a board at least 4 by 4; fewer only when
/// no empty cell was left for the rest), and every cell that is neither a head
/// nor a fruit holds what a fresh board holds.
pub open spec fn starts_as(g: &Game, gates: bool, p1: Snake, p2: Option<Snake>) -> bool {
    let b = g.the_board();
    let f = g.registry();
    let kinds = start_kinds(p1, p2);
    &&& f.len() <= kinds.len()
    &&& b.width() >= 4 && b.height() >= 4 ==> f.len() == kinds.len()
    &&& forall|i: int| 0 <= i < f.len() ==> #[trigger] f[i].1 == kinds[i] && is_interior(&b, f[i].0)
    &&& forall|pos: Position|
        b.in_bounds(pos) && !is_head(pos, p1, p2) && (forall|i: int|
            0 <= i < f.len() ==> f[i].0 != pos) ==> #[trigger] b.at(pos) == initial_cell(
            pos.x as int,
            pos.y as int,
            b.width(),
            b.height(),
            gates,
        )
}

/// A match: the board, one or two snakes and the fruits on the board
pub struct Game {
    board: Board,
    player_one: Snake,
    player_two: Option<Snake>,
    fruits: Vec<(Position, Items)>,
    ticks: Ghost<nat>,
    eaten_one: Ghost<nat>,
    eaten_two: Ghost<nat>,
}

impl Game {
    /// The board.
    pub closed spec fn the_board(&self) -> Board {
        self.board
    }

    /// Player one's snake.
    pub closed spec fn one(&self) -> Snake {
        self.player_one
    }

    /// Player two's snake, if there is a second player.
    pub closed spec fn two(&self) -> Option<Snake> {
        self.player_two
    }

    /// The fruits on the board, each with its cell, oldest first.
    pub closed spec fn registry(&self) -> Seq<(Position, Items)> {
        self.fruits@
    }

    /// How many ticks the match has run.
    pub closed spec fn ticks(&self) -> nat {
        self.ticks@
    }

    /// How many fruits player one has eaten.
    pub closed spec fn eaten_one(&self) -> nat {
        self.eaten_one@
    }

    /// How many fruits player two has eaten.
    pub closed spec fn eaten_two(&self) -> nat {
        self.eaten_two@
    }

    /// Each snake lies on the board as its body says, and each fruit entry names
    /// its cell; so no fruit lies on a body.
    pub open spec fn consistent(&self) -> bool {
        &&& self.the_board().wf()
        &&& tracks(&self.the_board(), &self.one())
        &&& self.one().kind() == Items::SNAKE
        &&& fruits_placed(&self.the_board(), self.registry())
        &&& match self.two() {
            Some(t) => {
                &&& tracks(&self.the_board(), &t)
                &&& t.kind() == Items::OSNAKE
            },
            None => true,
        }
    }

    /// The match is consistent, and each snake has grown as its meals say.
    pub open spec fn wf(&self) -> bool {
        &&& self.consistent()
        &&& grown_by(&self.one(), self.ticks(), self.eaten_one())
        &&& match self.two() {
            Some(t) => grown_by(&t, self.ticks(), self.eaten_two()),
            None => true,
        }
    }

    /// Starts a match on a fresh board: player one's snake leaves `SNAKE` cells,
    /// player two's, if any, `OSNAKE` cells; each must be a new snake on an empty
    /// cell of its own, with a fruit kind to eat. Both heads are marked, and a fruit
    /// is placed for player one and, unless the two eat the same kind, for player
    /// two. Returns None where a snake cannot start.
    pub fn new(size_x: usize, size_y: usize, gates: bool, player_one: Snake, player_two: Option<
        Snake,
    >) -> (r: Option<Self>)
        requires
            3 <= size_x <= isize::MAX,
            3 <= size_y <= isize::MAX,
        ensures
            r is Some <==> {
                &&& may_start(size_x as int, size_y as int, gates, &player_one, Items::SNAKE)
                &&& player_two matches Some(t) ==> may_start(
                    size_x as int,
                    size_y as int,
                    gates,
                    &t,
                    Items::OSNAKE,
                ) && t.head() != player_one.head()
            },
            r matches Some(g) ==> {
                &&& g.wf()
                &&& g.the_board().width() == size_x
                &&& g.the_board().height() == size_y
                &&& g.one() == player_one
                &&& g.two() == player_two
                &&& g.ticks() == 0
                &&& g.eaten_one() == 0
                &&& g.eaten_two() == 0
                &&& starts_as(&g, gates, player_one, player_two)
            },
    {
        let mut board = Board::new(size_x, size_y, gates);
        let ghost b0 = board;
        if !can_start(&board, &player_one, Items::SNAKE, Ghost(gates)) {
            return None;
        }
        let h1 = player_one.get_pos();
        match &player_two {
            Some(t) => {
                if !can_start(&board, t, Items::OSNAKE, Ghost(gates)) || t.get_pos() == h1 {
                    return None;
                }
            },
            None => {},
        }
        proof {
            assert(b0.at(h1) == Items::EMPTY);
            assert forall|k: Items| is_snake(k) implies b0.cells_of(k) =~= Set::<Position>::empty() by {
                assert forall|q: Position| !b0.cells_of(k).contains(q) by {
                    if b0.in_bounds(q) {
                        assert(b0.at(q) == initial_cell(q.x as int, q.y as int, b0.width(), b0.height(), gates));
                    }
                }
            }
        }
        board.change_position(&h1, Items::SNAKE);
        proof {
            Board::lemma_write(&b0, &board, h1, Items::SNAKE);
            lemma_single(h1);
            assert(board.cells_of(Items::SNAKE) =~= player_one.body().to_set());
        }
        let ghost b1 = board;
        match &player_two {
            Some(t) => {
                let h2 = t.get_pos();
                proof {
                    assert(b1.at(h2) == b0.at(h2));
                }
                board.change_position(&h2, Items::OSNAKE);
                proof {
                    Board::lemma_write(&b1, &board, h2, Items::OSNAKE);
                    lemma_single(h2);
                    assert(board.cells_of(Items::OSNAKE) =~= t.body().to_set());
                    assert(board.cells_of(Items::SNAKE) == b1.cells_of(Items::SNAKE));
                }
            },
            None => {},
        }
        let ghost b2 = board;
        let ghost w = size_x as int;
        let ghost h = size_y as int;
        proof {
            assert forall|q: Position|
                b2.in_bounds(q) && !is_head(q, player_one, player_two) implies #[trigger] b2.at(q)
                == initial_cell(q.x as int, q.y as int, w, h, gates) by {
                assert(b1.at(q) == b0.at(q));
            }
            if w >= 4 && h >= 4 {
                let c1 = Position { x: 1, y: 1 };
                let c2 = Position { x: 2, y: 1 };
                let c3 = Position { x: 1, y: 2 };
                let c = if !is_head(c1, player_one, player_two) {
                    c1
                } else if !is_head(c2, player_one, player_two) {
                    c2
                } else {
                    c3
                };
                assert(b2.in_bounds(c) && !is_head(c, player_one, player_two));
                assert(b2.at(c) == Items::EMPTY);
                assert(is_interior(&b2, c));
            }
        }
        let mut fruits: Vec<(Position, Items)> = Vec::new();
        let k1 = *player_one.fruit();
        let placed = fruit(&mut board, &k1, &mut fruits);
        proof {
            lemma_fruit_placed(&b2, &board, Seq::empty(), fruits@, k1, placed);
            assert(board.cells_of(Items::SNAKE) == b2.cells_of(Items::SNAKE));
            assert(board.cells_of(Items::OSNAKE) == b2.cells_of(Items::OSNAKE));
        }
        let ghost b3 = board;
        let ghost f3 = fruits@;
        match &player_two {
            Some(t) => {
                let k2 = *t.fruit();
                if k2 != k1 {
                    proof {
                        if w >= 4 && h >= 4 {
                            let p = f3[0].0;
                            let c1 = Position { x: 1, y: 1 };
                            let c2 = Position { x: 2, y: 1 };
                            let c3 = Position { x: 1, y: 2 };
                            let c4 = Position { x: 2, y: 2 };
                            let c = if !is_head(c1, player_one, player_two) && c1 != p {
                                c1
                            } else if !is_head(c2, player_one, player_two) && c2 != p {
                                c2
                            } else if !is_head(c3, player_one, player_two) && c3 != p {
                                c3
                            } else {
                                c4
                            };
                            assert(!is_head(c, player_one, player_two) && c != p);
                            assert(b3.in_bounds(c));
                            assert(b3.at(c) == b2.at(c));
                            assert(b3.at(c) == Items::EMPTY);
                            assert(is_interior(&b3, c));
                        }
                    }
                    let placed2 = fruit(&mut board, &k2, &mut fruits);
                    proof {
                        lemma_fruit_placed(&b3, &board, f3, fruits@, k2, placed2);
                        assert(board.cells_of(Items::SNAKE) == b3.cells_of(Items::SNAKE));
                        assert(board.cells_of(Items::OSNAKE) == b3.cells_of(Items::OSNAKE));
                    }
                }
            },
            None => {},
        }
        let g = Game {
            board,
            player_one,
            player_two,
            fruits,
            ticks: Ghost(0),
            eaten_one: Ghost(0),
            eaten_two: Ghost(0),
        };
        proof {
            let f = g.fruits@;
            let b = g.board;
            assert forall|pos: Position|
                b.in_bounds(pos) && !is_head(pos, player_one, player_two) && (forall|i: int|
                    0 <= i < f.len() ==> f[i].0 != pos) implies #[trigger] b.at(pos) == initial_cell(
                pos.x as int,
                pos.y as int,
                w,
                h,
                gates,
            ) by {
                if f3.len() == 1 {
                    assert(f[0].0 != pos);
                    assert(b3.at(pos) == b2.at(pos));
                }
                if f.len() == 2 {
                    assert(f[1].0 != pos);
                    assert(f.last() == f[1]);
                }
            }
        }
        proof {
            let f = g.registry();
            let kinds = start_kinds(player_one, player_two);
            assert(f.len() <= kinds.len());
            assert(w >= 4 && h >= 4 ==> f.len() == kinds.len());
            assert(forall|i: int| 0 <= i < f.len() ==> #[trigger] f[i].1 == kinds[i] && is_interior(&g.the_board(), f[i].0));
            assert(g.wf());
        }
        Some(g)
    }

    pub fn get_board(&self) -> (r: &Board)
        ensures
            *r == self.the_board(),
    {
        &self.board
    }

    pub fn get_snake_one(&self) -> (r: &Snake)
        ensures
            *r == self.one(),
    {
        &self.player_one
    }

    pub fn get_snake_two(&self) -> (r: Option<&Snake>)
        ensures
            r matches Some(t) ==> self.two() == Some(*t),
            r is None <==> self.two() is None,
    {
        match &self.player_two {
            Some(t) => Some(t),
            None => None,
        }
    }

    pub fn get_fruits(&self) -> (r: &Vec<(Position, Items)>)
        ensures
            r@ == self.registry(),
    {
        &self.fruits
    }

    /// Runs one tick: marks each head (a no-op, as the heads are marked), turns
    /// each snake as its input asks, ends the match on `quit`, then moves player
    /// one and after it player two, each as `stepped` says. The match ends at the
    /// first snake that cannot move, which then changes nothing.
    pub fn tick(&mut self, one: MoveOpt<Directions>, two: MoveOpt<Directions>, quit: bool) -> (r:
        Status)
        requires
            old(self).wf(),
        ensures
            final(self).consistent(),
            final(self).the_board().width() == old(self).the_board().width(),
            final(self).the_board().height() == old(self).the_board().height(),
            final(self).one().dir() == turned(old(self).one().dir(), one),
            quit ==> {
                &&& r == Status::Ended(EndReason::QuitRequested)
                &&& final(self).wf()
                &&& final(self).the_board() == old(self).the_board()
                &&& final(self).registry() == old(self).registry()
                &&& only_turned(old(self).one(), final(self).one(), one)
                &&& match (old(self).two(), final(self).two()) {
                    (Some(t), Some(t1)) => only_turned(t, t1, two),
                    (None, None) => true,
                    _ => false,
                }
                &&& final(self).ticks() == old(self).ticks()
            },
            !quit ==> exists|b1: Board, f1: Seq<(Position, Items)>, r1: Option<EndReason>|
                {
                    &&& stepped(
                        old(self).the_board(),
                        old(self).one(),
                        turned(old(self).one().dir(), one),
                        old(self).registry(),
                        b1,
                        final(self).one(),
                        f1,
                        r1,
                    )
                    &&& match (old(self).two(), final(self).two()) {
                        (None, None) => {
                            &&& r == status_of(r1)
                            &&& final(self).the_board() == b1
                            &&& final(self).registry() == f1
                        },
                        (Some(t), Some(t1)) => if r1 is Some {
                            &&& r == status_of(r1)
                            &&& final(self).the_board() == b1
                            &&& final(self).registry() == f1
                            &&& only_turned(t, t1, two)
                        } else {
                            exists|r2: Option<EndReason>|
                                stepped(
                                    b1,
                                    t,
                                    turned(t.dir(), two),
                                    f1,
                                    final(self).the_board(),
                                    t1,
                                    final(self).registry(),
                                    r2,
                                ) && r == status_of(r2)
                        },
                        _ => false,
                    }
                },
            ({
                let b = old(self).the_board();
                let s = old(self).one();
                let n1 = next_cell(&b, s.head(), turned(s.dir(), one));
                r == Status::Running ==> {
                    &&& final(self).wf()
                    &&& final(self).ticks() == old(self).ticks() + 1
                    &&& final(self).eaten_one() == old(self).eaten_one() + if b.at(n1)
                        == Items::EMPTY {
                        0nat
                    } else {
                        1nat
                    }
                    &&& old(self).eaten_two() <= final(self).eaten_two() <= old(self).eaten_two()
                        + 1
                }
            }),
    {
        let ghost g0 = *self;
        let h1 = self.player_one.get_pos();
        proof {
            assert(self.player_one.body()[0] == h1);
            assert(self.player_one.body().to_set().contains(h1));
        }
        self.board.change_position(&h1, Items::SNAKE);
        match &mut self.player_two {
            Some(t) => {
                let h2 = t.get_pos();
                proof {
                    assert(t.body()[0] == h2);
                    assert(t.body().to_set().contains(h2));
                }
                self.board.change_position(&h2, Items::OSNAKE);
                t.mover(two);
            },
            None => {},
        }
        self.player_one.mover(one);
        if quit {
            return Status::Ended(EndReason::QuitRequested);
        }
        let ghost ate1 = self.board.at(self.player_one.next_pos(&self.board)) != Items::EMPTY;
        let r1 = play(&mut self.board, &mut self.player_one, &mut self.fruits);
        let ghost b1 = self.board;
        let ghost f1 = self.fruits@;
        proof {
            assert(stepped(
                g0.the_board(),
                g0.one(),
                turned(g0.one().dir(), one),
                g0.registry(),
                b1,
                self.player_one,
                f1,
                r1,
            ));
        }
        if let Some(reason) = r1 {
            return Status::Ended(reason);
        }
        let mut ended: Option<EndReason> = None;
        let ghost mut ate2 = false;
        match &mut self.player_two {
            Some(t) => {
                proof {
                    ate2 = self.board.at(t.next_pos(&self.board)) != Items::EMPTY;
                }
                let r2 = play(&mut self.board, t, &mut self.fruits);
                proof {
                    let tt = g0.two()->Some_0;
                    assert(stepped(b1, tt, turned(tt.dir(), two), f1, self.board, *t, self.fruits@, r2));
                    assert(self.board.cells_of(Items::SNAKE) == b1.cells_of(Items::SNAKE));
                }
                ended = r2;
            },
            None => {},
        }
        proof {
            if g0.two() is Some {
                let tt = g0.two()->Some_0;
                assert(stepped(b1, tt, turned(tt.dir(), two), f1, self.board, self.player_two->Some_0, self.fruits@, ended));
            }
        }
        if let Some(reason) = ended {
            proof {
                let tt = g0.two()->Some_0;
                let t1 = self.player_two->Some_0;
                assert(status_of(ended) == Status::Ended(reason));
                assert(stepped(b1, tt, turned(tt.dir(), two), f1, self.board, t1, self.fruits@, ended));
            }
            return Status::Ended(reason);
        }
        self.eaten_two = Ghost(
            if ate2 {
                self.eaten_two@ + 1
            } else {
                self.eaten_two@
            },
        );
        self.ticks = Ghost(self.ticks@ + 1);
        self.eaten_one = Ghost(
            if ate1 {
                self.eaten_one@ + 1
            } else {
                self.eaten_one@
            },
        );
        Status::Running
    }
}

} // verus!
