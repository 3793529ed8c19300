use snake::board::{Board, BrickType, Direction, Position};
use snake::board_file::{split_tokens, PortalBar, SimpleBar, SnakeBar, WallBar};

fn toks(line: &str) -> Vec<Vec<u8>> {
    split_tokens(&line.as_bytes().to_vec())
}

#[test]
fn split_tokens_finds_maximal_runs() {
    let t = toks("  W  12 3\t4 ");
    assert_eq!(t.len(), 4);
    assert_eq!(t[0], b"W".to_vec());
    assert_eq!(t[1], b"12".to_vec());
    assert_eq!(t[2], b"3".to_vec());
    assert_eq!(t[3], b"4".to_vec());
    assert_eq!(toks("").len(), 0);
    assert_eq!(toks("   ").len(), 0);
}

#[test]
fn simple_bar_reads_four_fields() {
    let bar = SimpleBar::from_line(&toks("3 4 2 1"), 0).expect("four numeric fields parse");
    assert_eq!(bar.pos, Position(3, 4));
    assert_eq!(bar.len, 2);
    assert_eq!(bar.dir, Direction::Right);
    // the direction wraps modulo 4
    let bar = SimpleBar::from_line(&toks("0 0 1 6"), 0).expect("direction 6 wraps to Down");
    assert_eq!(bar.dir, Direction::Down);
    assert!(SimpleBar::from_line(&toks("3 4 2"), 0).is_none());
    assert!(SimpleBar::from_line(&toks("3 x 2 1"), 0).is_none());
}

#[test]
fn from_line_honours_its_offset() {
    let t = toks("W 3 4 2 1");
    let bar = WallBar::from_line(&t, 1).expect("the fields after the tag parse");
    assert_eq!(bar.base.pos, Position(3, 4));
    assert!(WallBar::from_line(&t, 2).is_none());
}

#[test]
fn portal_bar_reads_nine_fields() {
    let bar = PortalBar::from_line(&toks("2 2 1 1 5 5 7 0 3"), 0).expect("nine fields parse");
    assert_eq!(bar.base.pos, Position(2, 2));
    assert_eq!(bar.base.len, 1);
    assert_eq!(bar.base.dir, Direction::Right);
    assert_eq!(bar.destination, Position(5, 5));
    // the rotation is stored modulo 4
    assert_eq!(bar.rotation, 3);
    assert!(!bar.mirror);
    assert_eq!(bar.colour, 3);
    let mirrored = PortalBar::from_line(&toks("2 2 1 1 5 5 1 2 3"), 0).expect("mirror 2 is set");
    assert!(mirrored.mirror);
    assert!(PortalBar::from_line(&toks("2 2 1 1 5 5 1 0"), 0).is_none());
}

#[test]
fn wall_bar_paints_its_run() {
    let mut b = Board::new_empty(5, 5);
    let bar = WallBar::from_line(&toks("1 1 3 1"), 0).expect("the bar parses");
    assert!(bar.apply(&mut b));
    assert_eq!(b.brick_at(Position(1, 1)), BrickType::Wall);
    assert_eq!(b.brick_at(Position(1, 2)), BrickType::Wall);
    assert_eq!(b.brick_at(Position(1, 3)), BrickType::Wall);
    assert_eq!(b.brick_at(Position(1, 4)), BrickType::Empty);
    assert_eq!(b.brick_at(Position(2, 1)), BrickType::Empty);
}

#[test]
fn wall_bar_refuses_to_leave_the_grid() {
    let mut b = Board::new_empty(5, 5);
    let bar = WallBar::from_line(&toks("1 3 3 1"), 0).expect("the bar parses");
    assert!(!bar.apply(&mut b));
}

#[test]
fn snake_bar_builds_the_queue_front_first() {
    let mut b = Board::new_empty(5, 5);
    let bar = SnakeBar::from_line(&toks("3 2 3 1"), 0).expect("the bar parses");
    assert!(bar.apply(&mut b));
    // cells are painted rightwards from (3, 2); each is pushed onto the
    // front, so the last-painted cell (3, 4) leads the queue
    assert_eq!(b.snake_len(), 3);
    assert_eq!(b.snake_segment(0), Position(3, 4));
    assert_eq!(b.snake_segment(1), Position(3, 3));
    assert_eq!(b.snake_segment(2), Position(3, 2));
    assert_eq!(b.facing(), Direction::Right);
    assert_eq!(b.last_step(), Direction::Right);
    assert_eq!(b.brick_at(Position(3, 2)), BrickType::Snake(Direction::Right));
}

#[test]
fn portal_bar_steps_both_runs() {
    let mut b = Board::new_empty(6, 6);
    // two portals stepping Right at the sources and, with rotation 1,
    // Down at the destinations
    let bar = PortalBar::from_line(&toks("1 1 2 1 2 4 1 0 5"), 0).expect("the bar parses");
    assert!(bar.apply(&mut b));
    match b.brick_at(Position(1, 1)) {
        BrickType::Portal(pd) => {
            assert_eq!(pd.destination, Position(2, 4));
            assert_eq!(pd.rotation, 1);
            assert_eq!(pd.colour, 5);
        },
        other => panic!("expected a portal, found {:?}", other),
    }
    match b.brick_at(Position(1, 2)) {
        BrickType::Portal(pd) => {
            assert_eq!(pd.destination, Position(3, 4));
        },
        other => panic!("expected a portal, found {:?}", other),
    }
}
