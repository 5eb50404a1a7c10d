use snake_game::controller::{Directions, MoveOpt};
use snake_game::game::{EndReason, Game, Status};
use snake_game::snake::{Position, Snake};
use snake_game::Items;

fn count(game: &Game, kind: Items) -> usize {
    game.get_board()
        .get_vec()
        .iter()
        .map(|row| row.iter().filter(|c| **c == kind).count())
        .sum()
}

fn single(size: usize, start: Position) -> Game {
    Game::new(size, size, false, Snake::new(start, Items::SNAKE, Items::FRUIT), None).unwrap()
}

#[test]
fn new_game_marks_the_head_and_places_a_fruit() {
    let game = single(8, Position::new(4, 4));
    assert!(game.get_board().check_position(&Position::new(4, 4), &Items::SNAKE));
    assert_eq!(game.get_fruits().len(), 1);
    let (pos, kind) = game.get_fruits()[0].clone();
    assert_eq!(kind, Items::FRUIT);
    assert!(game.get_board().check_position(&pos, &Items::FRUIT));
}

#[test]
fn single_step_on_an_eight_board() {
    let mut game = single(8, Position::new(4, 4));
    assert_eq!(game.tick(MoveOpt::Idle, MoveOpt::Idle, false), Status::Running);
    assert_eq!(game.get_snake_one().get_pos(), Position::new(3, 4));
    assert!(game.get_board().check_position(&Position::new(3, 4), &Items::SNAKE));
    assert!(game.get_board().check_position(&Position::new(4, 4), &Items::SNAKE));
}

#[test]
fn start_cell_stays_until_the_body_outgrows_four() {
    let mut game = single(16, Position::new(12, 3));
    for _ in 0..3 {
        assert_eq!(game.tick(MoveOpt::Idle, MoveOpt::Idle, false), Status::Running);
        assert!(game.get_board().check_position(&Position::new(12, 3), &Items::SNAKE));
    }
    assert_eq!(game.tick(MoveOpt::Idle, MoveOpt::Idle, false), Status::Running);
    if game.get_snake_one()._get_size() == 4 {
        assert!(game.get_board().check_position(&Position::new(12, 3), &Items::EMPTY));
        assert_eq!(count(&game, Items::SNAKE), 4);
    }
}

#[test]
fn stepping_into_a_wall_ends_without_changes() {
    let mut game = single(8, Position::new(1, 4));
    let before = game.get_board().get_vec().clone();
    assert_eq!(
        game.tick(MoveOpt::Idle, MoveOpt::Idle, false),
        Status::Ended(EndReason::WallOrBodyCollision)
    );
    assert_eq!(*game.get_board().get_vec(), before);
    assert_eq!(game.get_snake_one().get_pos(), Position::new(1, 4));
}

#[test]
fn quit_ends_the_match() {
    let mut game = single(8, Position::new(4, 4));
    assert_eq!(
        game.tick(MoveOpt::Go(Directions::UP), MoveOpt::Idle, true),
        Status::Ended(EndReason::QuitRequested)
    );
    assert_eq!(game.get_snake_one().get_pos(), Position::new(4, 4));
}

#[test]
fn body_and_board_follow_the_growth_law() {
    let mut game = single(16, Position::new(13, 2));
    let mut ticks = 0usize;
    for _ in 0..6 {
        if game.tick(MoveOpt::Idle, MoveOpt::Idle, false) != Status::Running {
            break;
        }
        ticks += 1;
        let eaten = game.get_snake_one()._get_size() - 4;
        let expected = std::cmp::min(ticks + 1, 4 + eaten);
        assert_eq!(game.get_snake_one().get_tail().len(), expected);
        assert_eq!(count(&game, Items::SNAKE), expected);
    }
}

#[test]
fn wrapping_through_a_gate_keeps_the_match_running() {
    let mut game = Game::new(8, 8, true, Snake::new(Position::new(1, 4), Items::SNAKE, Items::FRUIT), None).unwrap();
    assert_eq!(game.tick(MoveOpt::Idle, MoveOpt::Idle, false), Status::Running);
    assert_eq!(game.get_snake_one().get_pos(), Position::new(0, 4));
    assert_eq!(game.tick(MoveOpt::Idle, MoveOpt::Idle, false), Status::Running);
    assert_eq!(game.get_snake_one().get_pos(), Position::new(7, 4));
}

#[test]
fn running_into_the_other_snake_is_an_opponent_collision() {
    let one = Snake::new(Position::new(5, 5), Items::SNAKE, Items::FRUIT);
    let two = Snake::new(Position::new(4, 5), Items::OSNAKE, Items::OFRUIT);
    let mut game = Game::new(10, 10, false, one, Some(two)).unwrap();
    assert_eq!(game.get_fruits().len(), 2);
    assert!(game.get_board().check_position(&Position::new(4, 5), &Items::OSNAKE));
    assert_eq!(
        game.tick(MoveOpt::Idle, MoveOpt::Go(Directions::UP), false),
        Status::Ended(EndReason::OpponentCollision)
    );
}

#[test]
fn shared_fruit_places_one_fruit() {
    let one = Snake::new(Position::new(5, 5), Items::SNAKE, Items::FRUIT);
    let two = Snake::new(Position::new(5, 7), Items::OSNAKE, Items::FRUIT);
    let game = Game::new(10, 10, false, one, Some(two)).unwrap();
    assert_eq!(game.get_fruits().len(), 1);
    assert_eq!(count(&game, Items::OSNAKE), 1);
    assert!(game.get_snake_two().is_some());
}

#[test]
fn snakes_that_cannot_start_are_refused() {
    let one = Snake::new(Position::new(5, 5), Items::SNAKE, Items::FRUIT);
    let two = Snake::new(Position::new(5, 5), Items::OSNAKE, Items::OFRUIT);
    assert!(Game::new(10, 10, false, one, Some(two)).is_none());
    let on_wall = Snake::new(Position::new(0, 5), Items::SNAKE, Items::FRUIT);
    assert!(Game::new(10, 10, false, on_wall, None).is_none());
    let wrong_kind = Snake::new(Position::new(5, 5), Items::OSNAKE, Items::FRUIT);
    assert!(Game::new(10, 10, false, wrong_kind, None).is_none());
    let eats_walls = Snake::new(Position::new(5, 5), Items::SNAKE, Items::WALL);
    assert!(Game::new(10, 10, false, eats_walls, None).is_none());
}

#[test]
fn second_snake_may_enter_the_cell_the_first_just_left() {
    let one = Snake::new(Position::new(10, 5), Items::SNAKE, Items::FRUIT);
    let two = Snake::new(Position::new(13, 6), Items::OSNAKE, Items::OFRUIT);
    let mut game = Game::new(16, 16, false, one, Some(two)).unwrap();
    for _ in 0..3 {
        assert_eq!(game.tick(MoveOpt::Idle, MoveOpt::Idle, false), Status::Running);
    }
    assert_eq!(game.get_snake_two().unwrap().get_pos(), Position::new(10, 6));
    let one_grows = game.get_snake_one()._get_size() != 4
        || game.get_fruits().iter().any(|(p, _)| *p == Position::new(6, 5));
    if !one_grows {
        assert_eq!(game.tick(MoveOpt::Idle, MoveOpt::Go(Directions::UP), false), Status::Running);
        assert_eq!(game.get_snake_two().unwrap().get_pos(), Position::new(10, 5));
        assert!(game.get_board().check_position(&Position::new(10, 5), &Items::OSNAKE));
    }
}

#[test]
fn fruits_stay_off_both_bodies() {
    let one = Snake::new(Position::new(5, 5), Items::SNAKE, Items::FRUIT);
    let two = Snake::new(Position::new(5, 7), Items::OSNAKE, Items::OFRUIT);
    let mut game = Game::new(12, 12, false, one, Some(two)).unwrap();
    for _ in 0..3 {
        if game.tick(MoveOpt::Idle, MoveOpt::Idle, false) != Status::Running {
            break;
        }
        for (pos, kind) in game.get_fruits().iter() {
            assert!(game.get_board().check_position(pos, kind));
        }
    }
}
