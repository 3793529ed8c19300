use snake::board::{BrickType, Direction, Position};
use snake::board_file::from_lines;

fn lines(text: &[&str]) -> Vec<Vec<u8>> {
    let mut out: Vec<Vec<u8>> = Vec::new();
    for s in text {
        out.push(s.as_bytes().to_vec());
    }
    out
}

/// A 7 by 7 board whose row `r` is painted by `W r 0 7 1`, except that row
/// 1 leaves the single cell `(1, 3)` free; the snake sits at `(2, 3)` and
/// `(3, 3)`, heading Up. The food can only spawn at `(1, 3)`.
fn corridor() -> Vec<Vec<u8>> {
    lines(&[
        "7 7",
        "W 0 0 7 1",
        "W 1 0 3 1",
        "W 1 4 3 1",
        "W 2 0 7 1",
        "W 3 0 7 1",
        "W 4 0 7 1",
        "W 5 0 7 1",
        "W 6 0 7 1",
        "S 3 3 2 0",
    ])
}

#[test]
fn load_board_with_snake() {
    let b = from_lines(&lines(&[
        "7 7",
        "W 0 0 7 1",
        "W 6 0 7 1",
        "W 0 0 7 2",
        "W 0 6 7 2",
        "S 3 3 2 0",
    ]))
    .expect("a well-formed board file loads");
    assert_eq!(b.x_size(), 7);
    assert_eq!(b.y_size(), 7);
    // the directive paints (3, 3) first and (2, 3) last; the front of the
    // queue, the last-painted cell, is the head
    assert_eq!(b.snake_len(), 2);
    assert_eq!(b.initial_size(), 2);
    assert_eq!(b.get_head(), Position(2, 3));
    assert_eq!(b.snake_segment(0), Position(2, 3));
    assert_eq!(b.snake_segment(1), Position(3, 3));
    assert_eq!(b.facing(), Direction::Up);
    assert_eq!(b.last_step(), Direction::Up);
    assert_eq!(b.brick_at(Position(2, 3)), BrickType::SnakeHead(Direction::Up));
    assert_eq!(b.brick_at(Position(3, 3)), BrickType::Snake(Direction::Up));
    assert_eq!(b.brick_at(Position(0, 0)), BrickType::Wall);
    assert_eq!(b.brick_at(Position(6, 6)), BrickType::Wall);
    let mut food = 0;
    for x in 0..7 {
        for y in 0..7 {
            if matches!(b.brick_at(Position(x, y)), BrickType::Food) {
                food += 1;
            }
        }
    }
    assert_eq!(food, 1);
}

#[test]
fn step_moves_head_one_cell() {
    let mut b = from_lines(&lines(&[
        "7 7",
        "W 0 0 7 1",
        "W 6 0 7 1",
        "W 0 0 7 2",
        "W 0 6 7 2",
        "S 3 3 2 0",
    ]))
    .expect("a well-formed board file loads");
    let target_had_food = matches!(b.brick_at(Position(1, 3)), BrickType::Food);
    assert!(b.step());
    assert_eq!(b.get_head(), Position(1, 3));
    assert_eq!(b.brick_at(Position(1, 3)), BrickType::SnakeHead(Direction::Up));
    assert_eq!(b.brick_at(Position(2, 3)), BrickType::Snake(Direction::Up));
    if target_had_food {
        // the snake grew; the old tail stays put
        assert_eq!(b.snake_len(), 3);
        assert_eq!(b.brick_at(Position(3, 3)), BrickType::Snake(Direction::Up));
        assert_eq!(b.score(), 1);
    } else {
        // the snake moved; the old tail cell is vacated
        assert_eq!(b.snake_len(), 2);
        assert_eq!(b.brick_at(Position(3, 3)), BrickType::Empty);
        assert_eq!(b.score(), 0);
    }
}

#[test]
fn eating_food_grows_the_snake() {
    let mut b = from_lines(&corridor()).expect("the corridor loads");
    // the single empty cell holds the food
    assert_eq!(b.brick_at(Position(1, 3)), BrickType::Food);
    assert!(b.step());
    assert_eq!(b.snake_len(), 3);
    assert_eq!(b.score(), 1);
    assert_eq!(b.get_head(), Position(1, 3));
    assert_eq!(b.brick_at(Position(1, 3)), BrickType::SnakeHead(Direction::Up));
    assert_eq!(b.brick_at(Position(2, 3)), BrickType::Snake(Direction::Up));
    assert_eq!(b.brick_at(Position(3, 3)), BrickType::Snake(Direction::Up));
    // the board is now completely full, so no new food could spawn
    let mut food = 0;
    for x in 0..7 {
        for y in 0..7 {
            if matches!(b.brick_at(Position(x, y)), BrickType::Food) {
                food += 1;
            }
        }
    }
    assert_eq!(food, 0);
}

#[test]
fn hitting_a_wall_changes_nothing() {
    let mut b = from_lines(&corridor()).expect("the corridor loads");
    assert!(b.step());
    // the head now faces the top wall
    assert_eq!(b.get_head(), Position(1, 3));
    assert!(!b.step());
    assert_eq!(b.get_head(), Position(1, 3));
    assert_eq!(b.snake_len(), 3);
    assert_eq!(b.facing(), Direction::Up);
    assert_eq!(b.brick_at(Position(0, 3)), BrickType::Wall);
    assert_eq!(b.brick_at(Position(1, 3)), BrickType::SnakeHead(Direction::Up));
}

#[test]
fn stepping_into_own_body_is_fatal() {
    let mut b = from_lines(&lines(&[
        "7 7",
        "W 0 0 7 1",
        "W 6 0 7 1",
        "W 0 0 7 2",
        "W 0 6 7 2",
        "S 4 1 4 1",
    ]))
    .expect("a well-formed board file loads");
    // the snake runs along row 4, head at (4, 4), heading Right; walk a
    // tight U-turn so the head bites the still-occupied part of the body
    assert_eq!(b.get_head(), Position(4, 4));
    b.turn(Direction::Up);
    assert!(b.step());
    assert_eq!(b.get_head(), Position(3, 4));
    b.turn(Direction::Left);
    assert!(b.step());
    assert_eq!(b.get_head(), Position(3, 3));
    b.turn(Direction::Down);
    assert!(!b.step());
    assert_eq!(b.get_head(), Position(3, 3));
    assert!(matches!(b.brick_at(Position(4, 3)), BrickType::Snake(_)));
}

#[test]
fn portal_relocates_head_and_rotates_facing() {
    let mut b = from_lines(&lines(&["8 8", "P 2 2 1 1 5 5 1 0 3", "S 2 1 1 1"]))
        .expect("a well-formed board file loads");
    assert_eq!(b.get_head(), Position(2, 1));
    assert_eq!(b.facing(), Direction::Right);
    match b.brick_at(Position(2, 2)) {
        BrickType::Portal(pd) => {
            assert_eq!(pd.destination, Position(5, 5));
            assert_eq!(pd.rotation, 1);
            assert_eq!(pd.colour, 3);
        },
        other => panic!("expected a portal, found {:?}", other),
    }
    assert!(b.step());
    // entering the portal while facing Right: the head lands on the
    // portal's destination and the facing turns one quarter to Down
    assert_eq!(b.get_head(), Position(5, 5));
    assert_eq!(b.facing(), Direction::Down);
    assert_eq!(b.last_step(), Direction::Down);
    assert_eq!(b.brick_at(Position(5, 5)), BrickType::SnakeHead(Direction::Down));
}

#[test]
fn mirrored_portal_reverses_exit_heading() {
    let b = from_lines(&lines(&["8 8", "P 2 2 1 1 5 5 1 1 3"]))
        .expect("a well-formed board file loads");
    match b.brick_at(Position(2, 2)) {
        BrickType::Portal(pd) => {
            assert_eq!(pd.destination, Position(5, 5));
            assert_eq!(pd.rotation, 3);
        },
        other => panic!("expected a portal, found {:?}", other),
    }
}

#[test]
fn portal_chains_resolve_in_order() {
    let mut b = from_lines(&lines(&[
        "8 8",
        "P 2 2 1 1 4 4 0 0 1",
        "P 4 4 1 1 6 6 0 0 2",
        "S 2 1 1 1",
    ]))
    .expect("a well-formed board file loads");
    // the first portal forwards to the second, the second to an open cell
    assert!(b.step());
    assert_eq!(b.get_head(), Position(6, 6));
    assert_eq!(b.facing(), Direction::Right);
}

#[test]
fn portal_cycle_is_a_fatal_collision() {
    let mut b = from_lines(&lines(&[
        "8 8",
        "P 2 2 1 1 4 4 0 0 1",
        "P 4 4 1 1 2 2 0 0 1",
        "S 2 1 1 1",
    ]))
    .expect("a well-formed board file loads");
    assert_eq!(b.get_head(), Position(2, 1));
    // the two portals send the step back and forth forever; the bounded
    // traversal gives up and reports a collision
    assert!(!b.step());
    assert_eq!(b.get_head(), Position(2, 1));
    assert_eq!(b.snake_len(), 1);
}

#[test]
fn unknown_tags_are_ignored() {
    let b = from_lines(&lines(&["5 5", "X 1 2 3", "WW 1 1 2 0", "", "W 0 0 5 1"]))
        .expect("unknown tags and blank lines do not fail a load");
    assert_eq!(b.snake_len(), 0);
    assert_eq!(b.brick_at(Position(0, 4)), BrickType::Wall);
    assert!(matches!(
        b.brick_at(Position(1, 0)),
        BrickType::Empty | BrickType::Food
    ));
}

#[test]
fn empty_input_fails() {
    assert!(from_lines(&lines(&[])).is_none());
}

#[test]
fn malformed_header_fails() {
    assert!(from_lines(&lines(&["7"])).is_none());
    assert!(from_lines(&lines(&["a 7"])).is_none());
    assert!(from_lines(&lines(&["0 7"])).is_none());
    assert!(from_lines(&lines(&["7 0"])).is_none());
    assert!(from_lines(&lines(&[""])).is_none());
}

#[test]
fn malformed_directive_fails() {
    assert!(from_lines(&lines(&["7 7", "W 1 1 2"])).is_none());
    assert!(from_lines(&lines(&["7 7", "W 1 1 x 1"])).is_none());
    assert!(from_lines(&lines(&["7 7", "S -1 1 2 0"])).is_none());
    assert!(from_lines(&lines(&["7 7", "P 2 2 1 1 5 5 1 0"])).is_none());
    assert!(from_lines(&lines(&["7 7", "P 2 2 1 1 5 5 1 0 -3"])).is_none());
}

#[test]
fn painting_outside_the_grid_fails() {
    assert!(from_lines(&lines(&["7 7", "W 0 0 8 1"])).is_none());
    assert!(from_lines(&lines(&["7 7", "W 9 0 1 1"])).is_none());
    assert!(from_lines(&lines(&["7 7", "S 0 0 2 0"])).is_none());
    assert!(from_lines(&lines(&["7 7", "P 2 2 1 1 9 9 1 0 3"])).is_none());
}

#[test]
fn overwriting_the_snake_fails() {
    assert!(from_lines(&lines(&["7 7", "S 3 3 2 0", "W 2 3 1 0"])).is_none());
    assert!(from_lines(&lines(&["7 7", "S 3 3 2 0", "S 3 3 2 0"])).is_none());
}

#[test]
fn full_board_has_no_room_for_food() {
    let mut full = vec!["7 7".to_string()];
    for r in 0..7 {
        full.push(format!("W {} 0 7 1", r));
    }
    let byte_lines: Vec<Vec<u8>> = full.iter().map(|s| s.as_bytes().to_vec()).collect();
    assert!(from_lines(&byte_lines).is_none());
}

#[test]
fn dir_values_wrap_modulo_four() {
    let b = from_lines(&lines(&["7 7", "S 3 3 2 4"])).expect("direction 4 wraps to Up");
    assert_eq!(b.facing(), Direction::Up);
    assert_eq!(b.get_head(), Position(2, 3));
}
