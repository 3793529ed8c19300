use snake::board::{Board, BrickType, Direction, Position};

#[test]
fn direction_from_primitive_wraps() {
    assert_eq!(Direction::from_primitive(0), Direction::Up);
    assert_eq!(Direction::from_primitive(1), Direction::Right);
    assert_eq!(Direction::from_primitive(2), Direction::Down);
    assert_eq!(Direction::from_primitive(3), Direction::Left);
    assert_eq!(Direction::from_primitive(4), Direction::Up);
    assert_eq!(Direction::from_primitive(255), Direction::Left);
}

#[test]
fn direction_rotate_and_mirror() {
    assert_eq!(Direction::Up.rotate(1), Direction::Right);
    assert_eq!(Direction::Left.rotate(1), Direction::Up);
    assert_eq!(Direction::Right.rotate(3), Direction::Up);
    assert_eq!(Direction::Down.rotate(0), Direction::Down);
    assert_eq!(Direction::Up.rotate(255), Direction::Left);
    assert_eq!(Direction::Up.mirror(), Direction::Down);
    assert_eq!(Direction::Right.mirror(), Direction::Left);
    assert_eq!(Direction::Down.mirror(), Direction::Up);
    assert_eq!(Direction::Left.mirror(), Direction::Right);
}

#[test]
fn position_move_dir() {
    let p = Position(3, 4);
    assert_eq!(p.move_dir(Direction::Up), Position(2, 4));
    assert_eq!(p.move_dir(Direction::Down), Position(4, 4));
    assert_eq!(p.move_dir(Direction::Left), Position(3, 3));
    assert_eq!(p.move_dir(Direction::Right), Position(3, 5));
}

#[test]
fn position_checked_move_stops_at_edges() {
    assert_eq!(Position(0, 2).checked_move(5, 5, Direction::Up), None);
    assert_eq!(Position(4, 2).checked_move(5, 5, Direction::Down), None);
    assert_eq!(Position(2, 0).checked_move(5, 5, Direction::Left), None);
    assert_eq!(Position(2, 4).checked_move(5, 5, Direction::Right), None);
    assert_eq!(
        Position(2, 2).checked_move(5, 5, Direction::Down),
        Some(Position(3, 2))
    );
}

#[test]
fn new_empty_board_has_no_contents() {
    let b = Board::new_empty(4, 6);
    assert_eq!(b.x_size(), 4);
    assert_eq!(b.y_size(), 6);
    assert_eq!(b.snake_len(), 0);
    assert_eq!(b.initial_size(), 0);
    for x in 0..4 {
        for y in 0..6 {
            assert_eq!(b.brick_at(Position(x, y)), BrickType::Empty);
        }
    }
}

#[test]
fn default_board_layout() {
    let b = Board::new_default(15, 30);
    assert_eq!(b.x_size(), 15);
    assert_eq!(b.y_size(), 30);
    assert_eq!(b.snake_len(), 4);
    assert_eq!(b.initial_size(), 4);
    assert_eq!(b.score(), 0);
    assert_eq!(b.facing(), Direction::Up);
    assert_eq!(b.last_step(), Direction::Up);
    assert_eq!(b.get_head(), Position(7, 15));
    assert_eq!(b.brick_at(Position(7, 15)), BrickType::SnakeHead(Direction::Up));
    for k in 1..4 {
        assert_eq!(b.snake_segment(k), Position(7 + k, 15));
        assert_eq!(b.brick_at(Position(7 + k, 15)), BrickType::Snake(Direction::Up));
    }
    let mut food = 0;
    for x in 0..15 {
        for y in 0..30 {
            let brick = b.brick_at(Position(x, y));
            let border = x == 0 || x == 14 || y == 0 || y == 29;
            if border {
                assert_eq!(brick, BrickType::Wall);
            }
            if matches!(brick, BrickType::Food) {
                assert!(!border);
                food += 1;
            }
        }
    }
    assert_eq!(food, 1);
}

#[test]
fn find_valid_food_spawn_on_open_board() {
    let b = Board::new_empty(3, 3);
    let p = b.find_valid_food_spawn().expect("an empty board has room for food");
    assert!(p.0 < 3 && p.1 < 3);
    assert_eq!(b.brick_at(p), BrickType::Empty);
}

#[test]
fn snake_markers_match_queue() {
    let mut b = Board::new_default(15, 30);
    for _ in 0..3 {
        let mut marked = 0;
        for x in 0..15 {
            for y in 0..30 {
                if matches!(
                    b.brick_at(Position(x, y)),
                    BrickType::Snake(_) | BrickType::SnakeHead(_)
                ) {
                    marked += 1;
                }
            }
        }
        assert_eq!(marked, b.snake_len());
        assert_eq!(
            b.brick_at(b.get_head()),
            BrickType::SnakeHead(b.facing())
        );
        assert_eq!(b.get_head(), b.snake_segment(0));
        assert!(b.step());
    }
}

#[test]
fn turn_rejects_exact_reversal() {
    let mut b = Board::new_default(15, 30);
    // last_step is Up, so Down is the forbidden reversal
    b.turn(Direction::Down);
    assert_eq!(b.facing(), Direction::Up);
    b.turn(Direction::Left);
    assert_eq!(b.facing(), Direction::Left);
    // last_step is still Up: turning back up again is fine
    b.turn(Direction::Up);
    assert_eq!(b.facing(), Direction::Up);
}

#[test]
fn turn_repaints_head_marker() {
    let mut b = Board::new_default(15, 30);
    let head = b.get_head();
    b.turn(Direction::Right);
    assert_eq!(b.facing(), Direction::Right);
    assert_eq!(b.brick_at(head), BrickType::SnakeHead(Direction::Right));
    assert_eq!(b.last_step(), Direction::Up);
}
