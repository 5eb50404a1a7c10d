use snake_game::board::Board;
use snake_game::{fruit, place_on_first_empty};
use snake_game::snake::Position;
use snake_game::Items;

fn get_board() -> Board {
    Board::new(8, 8, false)
}

#[test]
fn test_position() {
    let board = get_board();
    assert!(board.check_position(&Position::new(0, 0), &Items::WALL));
    assert!(board.check_position(&Position::new(1, 1), &Items::EMPTY));
}

#[test]
fn test_change_position() {
    let mut board = get_board();
    let pos = Position::new(1, 1);
    assert!(board.check_position(&pos, &Items::EMPTY));
    assert!(board.change_position(&pos, Items::FRUIT));
    assert!(board.check_position(&pos, &Items::FRUIT));

    let mut board = get_board();
    let pos = Position::new(0, 0);
    assert!(board.check_position(&pos, &Items::WALL));
    assert_eq!(false, board.change_position(&pos, Items::EMPTY));
    assert!(board.check_position(&pos, &Items::WALL));

    let mut board = get_board();
    let pos = Position::new(1, 1);
    assert!(board.check_position(&pos, &Items::EMPTY));
    assert!(board.change_position(&pos, Items::SNAKE));
    assert!(board.check_position(&pos, &Items::SNAKE));
}

#[test]
fn test_add_fruit() {
    let mut board = get_board();
    assert!(fruit(&mut board, &Items::FRUIT, &mut vec![]));
}

#[test]
fn solid_board_has_walls_only_on_its_ring() {
    let board = Board::new(8, 6, false);
    let rows = board.get_vec();
    assert_eq!(rows.len(), 6);
    for (y, row) in rows.iter().enumerate() {
        assert_eq!(row.len(), 8);
        for (x, cell) in row.iter().enumerate() {
            let ring = x == 0 || x == 7 || y == 0 || y == 5;
            if ring {
                assert_eq!(*cell, Items::WALL);
            } else {
                assert_eq!(*cell, Items::EMPTY);
            }
        }
    }
}

#[test]
fn gated_board_opens_the_middle_of_each_edge() {
    let board = Board::new(16, 16, true);
    for d in 0..5 {
        let c = 6 + d;
        assert!(board.check_position(&Position::new(0, c), &Items::EMPTY));
        assert!(board.check_position(&Position::new(15, c), &Items::EMPTY));
        assert!(board.check_position(&Position::new(c, 0), &Items::EMPTY));
        assert!(board.check_position(&Position::new(c, 15), &Items::EMPTY));
    }
    assert!(board.check_position(&Position::new(0, 5), &Items::WALL));
    assert!(board.check_position(&Position::new(0, 11), &Items::WALL));
    assert!(board.check_position(&Position::new(5, 0), &Items::WALL));
    assert!(board.check_position(&Position::new(11, 15), &Items::WALL));
    assert!(board.check_position(&Position::new(0, 0), &Items::WALL));
}

#[test]
fn small_gated_board_builds() {
    let board = Board::new(4, 4, true);
    assert_eq!(board.get_max_size(), (4, 4));
    assert!(board.check_position(&Position::new(0, 0), &Items::EMPTY));
    assert!(board.check_position(&Position::new(1, 1), &Items::EMPTY));
}

#[test]
fn default_board_is_solid_and_sixteen_wide() {
    let board = Board::default();
    assert_eq!(board.get_max_size(), (16, 16));
    assert!(board.check_position(&Position::new(8, 0), &Items::WALL));
    assert!(board.check_position(&Position::new(8, 8), &Items::EMPTY));
}

#[test]
fn placing_on_a_wall_changes_nothing() {
    let mut board = get_board();
    let pos = Position::new(7, 3);
    assert!(!board.change_position(&pos, Items::FRUIT));
    assert!(board.check_position(&pos, &Items::WALL));
    assert!(!board.remove_position(&pos));
    assert!(board.check_position(&pos, &Items::WALL));
}

#[test]
fn placing_on_a_snake_changes_nothing() {
    let mut board = get_board();
    let pos = Position::new(2, 2);
    assert!(board.change_position(&pos, Items::OSNAKE));
    assert!(!board.change_position(&pos, Items::FRUIT));
    assert!(board.check_position(&pos, &Items::OSNAKE));
}

#[test]
fn removing_clears_a_cell() {
    let mut board = get_board();
    let pos = Position::new(3, 3);
    assert!(board.change_position(&pos, Items::SNAKE));
    assert!(board.remove_position(&pos));
    assert!(board.check_position(&pos, &Items::EMPTY));
}

#[test]
fn overflow_wraps_each_edge() {
    let board = get_board();
    assert_eq!(board.get_overflow_pos(Position::new(8, 3)), Position::new(0, 3));
    assert_eq!(board.get_overflow_pos(Position::new(-1, 3)), Position::new(7, 3));
    assert_eq!(board.get_overflow_pos(Position::new(3, 8)), Position::new(3, 0));
    assert_eq!(board.get_overflow_pos(Position::new(3, -1)), Position::new(3, 7));
    assert_eq!(board.get_overflow_pos(Position::new(3, 4)), Position::new(3, 4));
}

#[test]
fn fruit_lands_inside_the_walls() {
    let mut board = get_board();
    let mut fruits = vec![];
    assert!(fruit(&mut board, &Items::OFRUIT, &mut fruits));
    assert_eq!(fruits.len(), 1);
    let (pos, kind) = fruits[0].clone();
    assert_eq!(kind, Items::OFRUIT);
    assert!(pos.x >= 1 && pos.x <= 6 && pos.y >= 1 && pos.y <= 6);
    assert!(board.check_position(&pos, &Items::OFRUIT));
}

#[test]
fn fruit_fills_the_last_empty_cell() {
    let mut board = Board::new(4, 3, false);
    assert!(board.change_position(&Position::new(1, 1), Items::SNAKE));
    let mut fruits = vec![];
    assert!(fruit(&mut board, &Items::FRUIT, &mut fruits));
    assert_eq!(fruits, vec![(Position::new(2, 1), Items::FRUIT)]);
    assert!(board.check_position(&Position::new(2, 1), &Items::FRUIT));
}

#[test]
fn fruit_on_a_full_board_is_refused() {
    let mut board = Board::new(3, 3, false);
    assert!(board.change_position(&Position::new(1, 1), Items::SNAKE));
    let mut fruits = vec![];
    assert!(!fruit(&mut board, &Items::FRUIT, &mut fruits));
    assert!(fruits.is_empty());
    assert!(board.check_position(&Position::new(1, 1), &Items::SNAKE));
}

#[test]
fn fruit_positions_are_drawn_at_random() {
    let mut board = Board::new(20, 20, false);
    let mut fruits = vec![];
    for _ in 0..6 {
        assert!(fruit(&mut board, &Items::FRUIT, &mut fruits));
    }
    let in_row_order: Vec<(Position, Items)> =
        (1..7).map(|x| (Position::new(x, 1), Items::FRUIT)).collect();
    assert_ne!(fruits, in_row_order);
    for (pos, kind) in fruits.iter() {
        assert!(pos.x >= 1 && pos.x <= 18 && pos.y >= 1 && pos.y <= 18);
        assert!(board.check_position(pos, kind));
    }
}

#[test]
fn gated_corner_inside_an_edge_window_is_open() {
    let board = Board::new(5, 7, true);
    assert!(board.check_position(&Position::new(0, 0), &Items::EMPTY));
    assert!(board.check_position(&Position::new(4, 6), &Items::EMPTY));
    assert!(board.check_position(&Position::new(0, 3), &Items::EMPTY));
}

#[test]
fn fruit_goes_on_the_first_empty_candidate() {
    let mut board = get_board();
    assert!(board.change_position(&Position::new(2, 2), Items::SNAKE));
    let mut fruits = vec![];
    let candidates = vec![Position::new(0, 0), Position::new(2, 2), Position::new(3, 5), Position::new(4, 4)];
    assert!(place_on_first_empty(&mut board, &Items::FRUIT, &mut fruits, &candidates));
    assert_eq!(fruits, vec![(Position::new(3, 5), Items::FRUIT)]);
    assert!(board.check_position(&Position::new(3, 5), &Items::FRUIT));
    assert!(board.check_position(&Position::new(4, 4), &Items::EMPTY));
    let mut none = vec![];
    assert!(!place_on_first_empty(&mut board, &Items::FRUIT, &mut none, &vec![Position::new(0, 0)]));
    assert!(none.is_empty());
}
