use snake_game::board::Board;
use snake_game::controller::{Directions, MoveOpt};
use snake_game::snake::{Happen, Position, Snake};
use snake_game::Items;

fn make_snake() -> Snake {
    Snake::new(Position::new(4, 4), Items::SNAKE, Items::FRUIT)
}

#[test]
fn test_get_position() {
    let mut snake = make_snake();
    assert_eq!(Position::new(4, 4), snake.get_pos());
    let new_pos = snake.move_snake(&mut Board::new(4, 4, true), &mut vec![(Position::new(0, 0), Items::FRUIT)]);
    assert_eq!(Happen::Nothing, new_pos);
}

#[test]
fn test_eat() {
    let mut snake = make_snake();
    assert_eq!(4, snake._get_size());
    assert!(snake.eat());
    assert_eq!(5, snake._get_size());
    assert!(snake.eat());
    assert_eq!(6, snake._get_size());
    assert!(snake.eat());
    assert_eq!(7, snake._get_size());
}

#[test]
fn new_snake_heads_left_with_one_cell() {
    let snake = Snake::new(Position::new(2, 3), Items::OSNAKE, Items::OFRUIT);
    assert_eq!(snake.get_pos(), Position::new(2, 3));
    assert_eq!(snake.get_tail().len(), 1);
    assert_eq!(snake.get_items(), Items::OSNAKE);
    assert_eq!(*snake.fruit(), Items::OFRUIT);
    assert_eq!(snake._get_size(), 4);
}

#[test]
fn first_step_goes_left_without_trimming() {
    let mut board = Board::new(8, 8, false);
    let mut snake = make_snake();
    let mut fruits = vec![];
    assert_eq!(snake.move_snake(&mut board, &mut fruits), Happen::Nothing);
    assert_eq!(snake.get_pos(), Position::new(3, 4));
    let body: Vec<Position> = snake.get_tail().iter().cloned().collect();
    assert_eq!(body, vec![Position::new(3, 4), Position::new(4, 4)]);
    assert_eq!(snake.get_back(), None);
}

#[test]
fn reversal_is_ignored_and_other_turns_are_taken() {
    let mut board = Board::new(8, 8, false);
    let mut fruits = vec![];
    let mut snake = make_snake();
    snake.mover(MoveOpt::Go(Directions::RIGHT));
    snake.move_snake(&mut board, &mut fruits);
    assert_eq!(snake.get_pos(), Position::new(3, 4));
    snake.mover(MoveOpt::Go(Directions::LEFT));
    snake.move_snake(&mut board, &mut fruits);
    assert_eq!(snake.get_pos(), Position::new(2, 4));
    snake.mover(MoveOpt::Go(Directions::UP));
    snake.move_snake(&mut board, &mut fruits);
    assert_eq!(snake.get_pos(), Position::new(2, 3));
    snake.mover(MoveOpt::Go(Directions::DOWN));
    snake.mover(MoveOpt::Same);
    snake.mover(MoveOpt::Idle);
    snake.move_snake(&mut board, &mut fruits);
    assert_eq!(snake.get_pos(), Position::new(2, 2));
    snake.mover(MoveOpt::Go(Directions::RIGHT));
    snake.move_snake(&mut board, &mut fruits);
    assert_eq!(snake.get_pos(), Position::new(3, 2));
}

#[test]
fn eating_a_fruit_of_its_kind_grows_and_removes_the_entry() {
    let mut board = Board::new(8, 8, false);
    let fruit_pos = Position::new(3, 4);
    assert!(board.change_position(&fruit_pos, Items::FRUIT));
    let mut fruits = vec![(Position::new(5, 5), Items::OFRUIT), (fruit_pos, Items::FRUIT)];
    let mut snake = make_snake();
    assert_eq!(snake.move_snake(&mut board, &mut fruits), Happen::Done(true));
    assert_eq!(snake._get_size(), 5);
    assert_eq!(snake.get_pos(), fruit_pos);
    assert_eq!(fruits, vec![(Position::new(5, 5), Items::OFRUIT)]);
    assert_eq!(snake.get_back(), None);
}

#[test]
fn a_foreign_fruit_blocks() {
    let mut board = Board::new(8, 8, false);
    let fruit_pos = Position::new(3, 4);
    assert!(board.change_position(&fruit_pos, Items::OFRUIT));
    let mut fruits = vec![(fruit_pos, Items::OFRUIT)];
    let mut snake = make_snake();
    assert_eq!(snake.move_snake(&mut board, &mut fruits), Happen::Break);
    assert_eq!(snake.get_pos(), Position::new(4, 4));
    assert_eq!(fruits.len(), 1);
}

#[test]
fn a_wall_blocks() {
    let mut board = Board::new(8, 8, false);
    let mut snake = Snake::new(Position::new(1, 4), Items::SNAKE, Items::FRUIT);
    assert_eq!(snake.move_snake(&mut board, &mut vec![]), Happen::Break);
    assert_eq!(snake.get_pos(), Position::new(1, 4));
    assert_eq!(snake.get_tail().len(), 1);
}

#[test]
fn tail_is_dropped_once_the_body_outgrows_its_size() {
    let mut board = Board::new(16, 16, false);
    let mut snake = Snake::new(Position::new(10, 5), Items::SNAKE, Items::FRUIT);
    let mut fruits = vec![];
    for _ in 0..3 {
        snake.move_snake(&mut board, &mut fruits);
        assert_eq!(snake.get_back(), None);
    }
    snake.move_snake(&mut board, &mut fruits);
    assert_eq!(snake.get_back(), Some(Position::new(10, 5)));
    assert_eq!(snake.get_tail().len(), 4);
}

#[test]
fn snake_wraps_through_a_gate() {
    let mut board = Board::new(8, 8, true);
    let mut snake = Snake::new(Position::new(0, 4), Items::SNAKE, Items::FRUIT);
    assert_eq!(snake.move_snake(&mut board, &mut vec![]), Happen::Nothing);
    assert_eq!(snake.get_pos(), Position::new(7, 4));
    let mut up = Snake::new(Position::new(4, 0), Items::SNAKE, Items::FRUIT);
    up.mover(MoveOpt::Go(Directions::UP));
    assert_eq!(up.move_snake(&mut board, &mut vec![]), Happen::Nothing);
    assert_eq!(up.get_pos(), Position::new(4, 7));
}
