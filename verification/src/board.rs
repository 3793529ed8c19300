use vstd::prelude::*;

verus! {

/// One of the four headings on the grid, with ordinal 0 = Up, 1 = Right,
/// 2 = Down, 3 = Left. Rotation is addition modulo 4.
#[derive(Copy, Clone, Debug, PartialEq, Eq, Structural)]
pub enum Direction {
    Up,
    Right,
    Down,
    Left,
}

impl Direction {
    /// The ordinal of the heading, 0 through 3.
    pub open spec fn ord(self) -> int {
        match self {
            Direction::Up => 0,
            Direction::Right => 1,
            Direction::Down => 2,
            Direction::Left => 3,
        }
    }

    /// The heading with ordinal `x % 4`.
    pub open spec fn spec_from_primitive(x: int) -> Direction {
        if x % 4 == 0 {
            Direction::Up
        } else if x % 4 == 1 {
            Direction::Right
        } else if x % 4 == 2 {
            Direction::Down
        } else {
            Direction::Left
        }
    }

    pub fn from_primitive(x: u8) -> (d: Direction)
        ensures
            d == Direction::spec_from_primitive(x as int),
    {
        let r = x % 4;
        if r == 0 {
            Direction::Up
        } else if r == 1 {
            Direction::Right
        } else if r == 2 {
            Direction::Down
        } else {
            Direction::Left
        }
    }

    /// The ordinal, as an executable value.
    pub fn ordinal(self) -> (r: u8)
        ensures
            r == self.ord(),
    {
        match self {
            Direction::Up => 0,
            Direction::Right => 1,
            Direction::Down => 2,
            Direction::Left => 3,
        }
    }

    /// The heading turned clockwise by `rot` quarter turns.
    pub open spec fn spec_rotate(self, rot: int) -> Direction {
        Direction::spec_from_primitive(self.ord() + rot)
    }

    pub fn rotate(&self, rot: u8) -> (d: Direction)
        ensures
            d == self.spec_rotate(rot as int),
    {
        let r = Direction::from_primitive(self.ordinal() + rot % 4);
        proof {
            let o = self.ord();
            assert((o + rot % 4) % 4 == (o + rot) % 4) by {
                assert((o + rot % 4) % 4 == (o % 4 + rot % 4 % 4) % 4) by (nonlinear_arith);
                assert((o + rot) % 4 == (o % 4 + rot % 4) % 4) by (nonlinear_arith);
            }
        }
        r
    }

    /// The opposite heading.
    pub open spec fn spec_mirror(self) -> Direction {
        self.spec_rotate(2)
    }

    pub fn mirror(&self) -> (d: Direction)
        ensures
            d == self.spec_mirror(),
    {
        self.rotate(2)
    }
}

/// A pair of grid coordinates: row first, column second.
#[derive(Copy, Clone, Debug, PartialEq, Eq, Structural)]
pub struct Position(pub usize, pub usize);

impl Position {
    /// The coordinates one cell away in direction `d`, on unbounded integers.
    pub open spec fn spec_move(x: int, y: int, d: Direction) -> (int, int) {
        match d {
            Direction::Up => (x - 1, y),
            Direction::Right => (x, y + 1),
            Direction::Down => (x + 1, y),
            Direction::Left => (x, y - 1),
        }
    }

    /// The adjacent position in direction `dir`. Movement that would leave
    /// the non-negative coordinate range is ruled out by the precondition;
    /// callers check bounds first and treat such a move as a collision.
    pub fn move_dir(&self, dir: Direction) -> (p: Position)
        requires
            dir == Direction::Up ==> self.0 >= 1,
            dir == Direction::Left ==> self.1 >= 1,
            dir == Direction::Down ==> self.0 < usize::MAX,
            dir == Direction::Right ==> self.1 < usize::MAX,
        ensures
            (p.0 as int, p.1 as int) == Position::spec_move(self.0 as int, self.1 as int, dir),
    {
        let Position(x, y) = *self;
        match dir {
            Direction::Down => Position(x + 1, y),
            Direction::Left => Position(x, y - 1),
            Direction::Up => Position(x - 1, y),
            Direction::Right => Position(x, y + 1),
        }
    }

    /// The adjacent position in direction `d`, or `None` when that move
    /// would leave an `xs` by `ys` grid.
    pub fn checked_move(&self, xs: usize, ys: usize, d: Direction) -> (r: Option<Position>)
        requires
            self.0 < xs,
            self.1 < ys,
        ensures
            ({
                let (cx, cy) = Position::spec_move(self.0 as int, self.1 as int, d);
                match r {
                    Some(q) => q.0 == cx && q.1 == cy && cx < xs && cy < ys,
                    None => !(0 <= cx < xs && 0 <= cy < ys),
                }
            }),
    {
        match d {
            Direction::Up => {
                if self.0 == 0 {
                    Option::None
                } else {
                    Option::Some(Position(self.0 - 1, self.1))
                }
            },
            Direction::Down => {
                if self.0 + 1 >= xs {
                    Option::None
                } else {
                    Option::Some(Position(self.0 + 1, self.1))
                }
            },
            Direction::Left => {
                if self.1 == 0 {
                    Option::None
                } else {
                    Option::Some(Position(self.0, self.1 - 1))
                }
            },
            Direction::Right => {
                if self.1 + 1 >= ys {
                    Option::None
                } else {
                    Option::Some(Position(self.0, self.1 + 1))
                }
            },
        }
    }
}

/// What a portal cell knows: where it sends the snake, the colour it is
/// drawn in, and how it turns the snake's heading on the way through.
#[derive(Copy, Clone, Debug, PartialEq, Eq, Structural)]
pub struct PortalData {
    pub destination: Position,
    pub colour: i16,
    pub rotation: u8,
}

/// The contents of one grid cell.
#[derive(Copy, Clone, Debug, PartialEq, Eq, Structural)]
pub enum BrickType {
    /// Walkable, unoccupied.
    Empty,
    /// Blocks movement; walking into it is a fatal collision.
    Wall,
    /// A snake body segment, remembering the heading it was laid with.
    Snake(Direction),
    /// The segment at the front of the snake.
    SnakeHead(Direction),
    /// Walkable; eating it grows the snake by one segment.
    Food,
    /// Walkable; entering it teleports the snake.
    Portal(PortalData),
}

/// The mathematical value of a [`Board`]: its dimensions, cell grid,
/// snake queue (front = head), headings and score baseline.
#[verifier::ext_equal]
pub struct BoardModel {
    pub x_size: nat,
    pub y_size: nat,
    pub grid: Seq<Seq<BrickType>>,
    pub snake: Seq<Position>,
    pub facing: Direction,
    pub last_step: Direction,
    pub head: Position,
    pub initial_size: nat,
}

impl BoardModel {
    pub open spec fn in_bounds(self, x: int, y: int) -> bool {
        0 <= x < self.x_size && 0 <= y < self.y_size
    }

    pub open spec fn pos_in_bounds(self, p: Position) -> bool {
        self.in_bounds(p.0 as int, p.1 as int)
    }

    pub open spec fn cell(self, x: int, y: int) -> BrickType {
        self.grid[x][y]
    }

    pub open spec fn cell_at(self, p: Position) -> BrickType {
        self.cell(p.0 as int, p.1 as int)
    }

    /// Does the cell carry a snake marking (body or head)?
    pub open spec fn is_snake_brick(b: BrickType) -> bool {
        b is Snake || b is SnakeHead
    }

    /// The grid is a well-shaped `x_size` by `y_size` rectangle whose
    /// dimensions fit the machine's word size.
    pub open spec fn grid_shaped(self) -> bool {
        &&& self.x_size <= usize::MAX
        &&& self.y_size <= usize::MAX
        &&& self.grid.len() == self.x_size
        &&& forall|i: int| 0 <= i < self.x_size ==> (#[trigger] self.grid[i]).len() == self.y_size
    }

    /// At most one cell of the grid holds food.
    pub open spec fn at_most_one_food(self) -> bool {
        forall|x1: int, y1: int, x2: int, y2: int|
            self.in_bounds(x1, y1) && self.in_bounds(x2, y2) && #[trigger] self.cell(x1, y1) is Food
                && #[trigger] self.cell(x2, y2) is Food ==> x1 == x2 && y1 == y2
    }

    /// The cell grid and the snake queue agree: exactly the queued positions
    /// carry snake markings, the queue holds no duplicates and stays in
    /// bounds, and only its front may be marked as the head.
    pub open spec fn grid_matches_snake(self) -> bool {
        &&& self.grid_shaped()
        &&& forall|k: int| 0 <= k < self.snake.len() ==> self.pos_in_bounds(#[trigger] self.snake[k])
        &&& forall|k1: int, k2: int|
            0 <= k1 < k2 < self.snake.len() ==> self.snake[k1] != self.snake[k2]
        &&& forall|x: int, y: int|
            self.in_bounds(x, y) ==> (BoardModel::is_snake_brick(#[trigger] self.cell(x, y))
                <==> self.snake.contains(Position(x as usize, y as usize)))
        &&& forall|k: int| 1 <= k < self.snake.len() ==> self.cell_at(#[trigger] self.snake[k]) is Snake
    }

    /// Full well-formedness of a playable board: the grid mirrors the snake
    /// queue, the cached head is the queue's front and is marked with the
    /// current facing, food is unique, and the score baseline never exceeds
    /// the snake's length.
    pub open spec fn wf(self) -> bool {
        &&& self.grid_matches_snake()
        &&& self.at_most_one_food()
        &&& self.snake.len() > 0 ==> {
            &&& self.head == self.snake[0]
            &&& self.cell_at(self.head) == BrickType::SnakeHead(self.facing)
        }
        &&& self.initial_size <= self.snake.len()
    }

    /// `g` with the cell at `(x, y)` replaced by `b`.
    pub open spec fn grid_with(g: Seq<Seq<BrickType>>, x: int, y: int, b: BrickType) -> Seq<
        Seq<BrickType>,
    > {
        g.update(x, g[x].update(y, b))
    }
}

/// The game board: a rectangular cell grid together with the snake that
/// lives on it, the heading the next tick will apply (`facing`), the heading
/// the previous tick applied (`last_step`), the cached head position and the
/// snake's length at construction time (the score baseline).
pub struct Board {
    x_size: usize,
    y_size: usize,
    facing: Direction,
    last_step: Direction,
    board: Vec<Vec<BrickType>>,
    snake_pos: Position,
    snake: std::collections::VecDeque<Position>,
    initial_size: usize,
}

impl View for Board {
    type V = BoardModel;

    closed spec fn view(&self) -> BoardModel {
        BoardModel {
            x_size: self.x_size as nat,
            y_size: self.y_size as nat,
            grid: Seq::new(self.board@.len(), |i: int| self.board@[i]@),
            snake: self.snake@,
            facing: self.facing,
            last_step: self.last_step,
            head: self.snake_pos,
            initial_size: self.initial_size as nat,
        }
    }
}

impl Board {
    pub open spec fn wf(self) -> bool {
        self@.wf()
    }

    /// A board of the given dimensions with every cell empty and no snake.
    pub fn new_empty(x_size: usize, y_size: usize) -> (b: Board)
        ensures
            b.wf(),
            b@.x_size == x_size,
            b@.y_size == y_size,
            b@.grid_shaped(),
            forall|x: int, y: int| b@.in_bounds(x, y) ==> b@.cell(x, y) == BrickType::Empty,
            b@.snake.len() == 0,
            b@.facing == Direction::Up,
            b@.last_step == Direction::Up,
            b@.head == Position(0, 0),
            b@.initial_size == 0,
    {
        let mut rows: Vec<Vec<BrickType>> = Vec::new();
        for i in 0..x_size
            invariant
                rows@.len() == i,
                forall|k: int| 0 <= k < i ==> (#[trigger] rows@[k])@.len() == y_size,
                forall|k: int, l: int|
                    0 <= k < i && 0 <= l < y_size ==> #[trigger] rows@[k]@[l] == BrickType::Empty,
        {
            let mut row: Vec<BrickType> = Vec::new();
            for j in 0..y_size
                invariant
                    row@.len() == j,
                    forall|l: int| 0 <= l < j ==> row@[l] == BrickType::Empty,
            {
                row.push(BrickType::Empty);
            }
            rows.push(row);
        }
        Board {
            x_size,
            y_size,
            facing: Direction::Up,
            last_step: Direction::Up,
            board: rows,
            snake_pos: Position(0, 0),
            snake: std::collections::VecDeque::new(),
            initial_size: 0,
        }
    }

    pub fn x_size(&self) -> (r: usize)
        ensures
            r == self@.x_size,
    {
        self.x_size
    }

    pub fn y_size(&self) -> (r: usize)
        ensures
            r == self@.y_size,
    {
        self.y_size
    }

    /// The cached position of the snake's head.
    pub fn get_head(&self) -> (p: Position)
        ensures
            p == self@.head,
    {
        self.snake_pos
    }

    /// The heading the next tick will apply.
    pub fn facing(&self) -> (d: Direction)
        ensures
            d == self@.facing,
    {
        self.facing
    }

    /// The heading the previous tick applied.
    pub fn last_step(&self) -> (d: Direction)
        ensures
            d == self@.last_step,
    {
        self.last_step
    }

    /// How many segments the snake has.
    pub fn snake_len(&self) -> (n: usize)
        ensures
            n == self@.snake.len(),
    {
        self.snake.len()
    }

    /// The snake's length when the board was built: the score baseline.
    pub fn initial_size(&self) -> (n: usize)
        ensures
            n == self@.initial_size,
    {
        self.initial_size
    }

    /// The current score: segments grown since construction.
    pub fn score(&self) -> (n: usize)
        requires
            self.wf(),
        ensures
            n == self@.snake.len() - self@.initial_size,
    {
        self.snake.len() - self.initial_size
    }

    /// The segment at index `k` of the snake queue (0 is the head).
    pub fn snake_segment(&self, k: usize) -> (p: Position)
        requires
            k < self@.snake.len(),
        ensures
            p == self@.snake[k as int],
    {
        self.snake[k]
    }

    /// Read one cell of the grid.
    pub fn brick_at(&self, p: Position) -> (b: BrickType)
        requires
            self@.grid_shaped(),
            self@.pos_in_bounds(p),
        ensures
            b == self@.cell_at(p),
    {
        self.board[p.0][p.1]
    }

    /// Record the heading the next tick will apply.
    pub(crate) fn set_facing(&mut self, d: Direction)
        ensures
            final(self)@ == (BoardModel { facing: d, ..old(self)@ }),
    {
        self.facing = d;
        proof {
            assert(self@ =~~= (BoardModel { facing: d, ..old(self)@ }));
        }
    }

    /// Record the heading the current tick applied.
    pub(crate) fn set_last_step(&mut self, d: Direction)
        ensures
            final(self)@ == (BoardModel { last_step: d, ..old(self)@ }),
    {
        self.last_step = d;
        proof {
            assert(self@ =~~= (BoardModel { last_step: d, ..old(self)@ }));
        }
    }

    /// Update the cached head position.
    pub(crate) fn set_head_cache(&mut self, p: Position)
        ensures
            final(self)@ == (BoardModel { head: p, ..old(self)@ }),
    {
        self.snake_pos = p;
        proof {
            assert(self@ =~~= (BoardModel { head: p, ..old(self)@ }));
        }
    }

    /// Record the snake's length at construction time, the score baseline.
    pub(crate) fn set_initial_size(&mut self, n: usize)
        ensures
            final(self)@ == (BoardModel { initial_size: n as nat, ..old(self)@ }),
    {
        self.initial_size = n;
        proof {
            assert(self@ =~~= (BoardModel { initial_size: n as nat, ..old(self)@ }));
        }
    }

    /// Push a new head position onto the front of the snake queue.
    pub(crate) fn snake_push_front(&mut self, p: Position)
        ensures
            final(self)@ == (BoardModel { snake: seq![p] + old(self)@.snake, ..old(self)@ }),
    {
        self.snake.push_front(p);
        proof {
            assert(self@ =~~= (BoardModel { snake: seq![p] + old(self)@.snake, ..old(self)@ }));
        }
    }

    /// Pop the tail position off the back of the snake queue.
    pub(crate) fn snake_pop_back(&mut self) -> (r: Option<Position>)
        ensures
            old(self)@.snake.len() == 0 ==> r is None && final(self)@ == old(self)@,
            old(self)@.snake.len() > 0 ==> r == Some(old(self)@.snake.last()) && final(self)@
                == (BoardModel { snake: old(self)@.snake.drop_last(), ..old(self)@ }),
    {
        let r = self.snake.pop_back();
        proof {
            if old(self)@.snake.len() > 0 {
                assert(self@ =~~= (BoardModel {
                    snake: old(self)@.snake.drop_last(),
                    ..old(self)@
                }));
            } else {
                assert(self@ =~~= old(self)@);
            }
        }
        r
    }

    /// Stamp a one-cell-thick wall border onto the grid, leaving the
    /// interior and all remaining state untouched.
    fn create_wall_outline(&mut self)
        requires
            old(self)@.grid_shaped(),
            old(self)@.x_size >= 1,
            old(self)@.y_size >= 1,
        ensures
            final(self)@.grid_shaped(),
            final(self)@ == (BoardModel { grid: final(self)@.grid, ..old(self)@ }),
            forall|a: int, b: int|
                old(self)@.in_bounds(a, b) ==> #[trigger] final(self)@.cell(a, b) == (if a == 0 || a
                    == old(self)@.x_size - 1 || b == 0 || b == old(self)@.y_size - 1 {
                    BrickType::Wall
                } else {
                    old(self)@.cell(a, b)
                }),
    {
        let xs = self.x_size;
        let ys = self.y_size;
        for j in 0..ys
            invariant
                1 <= xs,
                xs == old(self)@.x_size,
                ys == old(self)@.y_size,
                self@.grid_shaped(),
                self@ == (BoardModel { grid: self@.grid, ..old(self)@ }),
                forall|a: int, b: int|
                    old(self)@.in_bounds(a, b) ==> #[trigger] self@.cell(a, b) == (if (a == 0 || a
                        == xs - 1) && b < j {
                        BrickType::Wall
                    } else {
                        old(self)@.cell(a, b)
                    }),
        {
            self.change_brick(Position(0, j), BrickType::Wall);
            self.change_brick(Position(xs - 1, j), BrickType::Wall);
        }
        let mut i: usize = 1;
        while i < xs - 1
            invariant
                1 <= i,
                i <= xs,
                1 <= xs,
                1 <= ys,
                xs == old(self)@.x_size,
                ys == old(self)@.y_size,
                self@.grid_shaped(),
                self@ == (BoardModel { grid: self@.grid, ..old(self)@ }),
                forall|a: int, b: int|
                    old(self)@.in_bounds(a, b) ==> #[trigger] self@.cell(a, b) == (if a == 0 || a
                        == xs - 1 || ((b == 0 || b == ys - 1) && a < i) {
                        BrickType::Wall
                    } else {
                        old(self)@.cell(a, b)
                    }),
            decreases xs - i,
        {
            self.change_brick(Position(i, 0), BrickType::Wall);
            self.change_brick(Position(i, ys - 1), BrickType::Wall);
            i += 1;
        }
    }

    /// Lay a fresh snake of `initial_size` segments in column `y`, occupying
    /// rows `x` up to `x + initial_size`, head at `(x, y)` and heading Up.
    fn place_snake(&mut self, x: usize, y: usize)
        requires
            old(self)@.grid_shaped(),
            old(self)@.snake.len() == 0,
            old(self)@.facing == Direction::Up,
            old(self)@.at_most_one_food(),
            1 <= old(self)@.initial_size,
            x + old(self)@.initial_size <= old(self)@.x_size,
            y < old(self)@.y_size,
            forall|a: int, b: int|
                old(self)@.in_bounds(a, b) ==> !BoardModel::is_snake_brick(
                    #[trigger] old(self)@.cell(a, b),
                ),
        ensures
            final(self)@.wf(),
            final(self)@.grid_shaped(),
            final(self)@.x_size == old(self)@.x_size,
            final(self)@.y_size == old(self)@.y_size,
            final(self)@.facing == old(self)@.facing,
            final(self)@.last_step == old(self)@.last_step,
            final(self)@.initial_size == old(self)@.initial_size,
            final(self)@.head == Position(x, y),
            final(self)@.snake == Seq::new(
                old(self)@.initial_size,
                |k: int| Position((x + k) as usize, y),
            ),
            forall|a: int, b: int|
                old(self)@.in_bounds(a, b) ==> #[trigger] final(self)@.cell(a, b) == (if b == y && x
                    <= a < x + old(self)@.initial_size {
                    if a == x {
                        BrickType::SnakeHead(Direction::Up)
                    } else {
                        BrickType::Snake(Direction::Up)
                    }
                } else {
                    old(self)@.cell(a, b)
                }),
    {
        let size = self.initial_size;
        let mut k: usize = 0;
        while k < size
            invariant
                size == old(self)@.initial_size,
                k <= size,
                x + size <= old(self)@.x_size,
                y < old(self)@.y_size,
                self@.grid_shaped(),
                self@.x_size == old(self)@.x_size,
                self@.y_size == old(self)@.y_size,
                self@.facing == old(self)@.facing,
                self@.last_step == old(self)@.last_step,
                self@.initial_size == old(self)@.initial_size,
                self@.head == old(self)@.head,
                self@.snake == Seq::new(k as nat, |t: int| Position((x + size - k + t) as usize, y)),
                forall|a: int, b: int|
                    old(self)@.in_bounds(a, b) ==> #[trigger] self@.cell(a, b) == (if b == y && x
                        + size - k <= a < x + size {
                        BrickType::Snake(Direction::Up)
                    } else {
                        old(self)@.cell(a, b)
                    }),
            decreases size - k,
        {
            let i = x + size - 1 - k;
            self.change_brick(Position(i, y), BrickType::Snake(Direction::Up));
            let ghost mid = self@;
            self.snake.push_front(Position(i, y));
            k += 1;
            proof {
                assert(self@ == (BoardModel { snake: self@.snake, ..mid }));
                assert(self@.snake =~= Seq::new(
                    k as nat,
                    |t: int| Position((x + size - k + t) as usize, y),
                ));
                assert forall|a: int, b: int| old(self)@.in_bounds(a, b) implies #[trigger] self@.cell(
                    a,
                    b,
                ) == (if b == y && x + size - k <= a < x + size {
                    BrickType::Snake(Direction::Up)
                } else {
                    old(self)@.cell(a, b)
                }) by {
                    assert(self@.cell(a, b) == mid.cell(a, b));
                }
            }
        }
        let ghost s_exit = self@;
        self.snake_pos = Position(x, y);
        proof {
            assert(self@ == (BoardModel { head: Position(x, y), ..s_exit }));
        }
        let ghost s_pos = self@;
        self.change_brick(Position(x, y), BrickType::SnakeHead(Direction::Up));
        proof {
            let size = old(self)@.initial_size;
            let m = self@;
            assert(m.snake =~= Seq::new(size, |k: int| Position((x + k) as usize, y)));
            assert forall|a: int, b: int| old(self)@.in_bounds(a, b) implies #[trigger] m.cell(a, b)
                == (if b == y && x <= a < x + size {
                if a == x {
                    BrickType::SnakeHead(Direction::Up)
                } else {
                    BrickType::Snake(Direction::Up)
                }
            } else {
                old(self)@.cell(a, b)
            }) by {
                assert(s_pos.cell(a, b) == s_exit.cell(a, b));
            }
            assert forall|a: int, b: int| m.in_bounds(a, b) implies (BoardModel::is_snake_brick(
                #[trigger] m.cell(a, b),
            ) <==> m.snake.contains(Position(a as usize, b as usize))) by {
                if BoardModel::is_snake_brick(m.cell(a, b)) {
                    assert(b == y && x <= a < x + size);
                    assert(m.snake[a - x] == Position(a as usize, b as usize));
                    assert(m.snake.contains(Position(a as usize, b as usize)));
                }
                if m.snake.contains(Position(a as usize, b as usize)) {
                    let k = choose|k: int|
                        0 <= k < m.snake.len() && m.snake[k] == Position(a as usize, b as usize);
                    assert(m.snake[k] == Position((x + k) as usize, y));
                    assert(a == x + k && b == y);
                }
            }
            assert forall|k: int| 1 <= k < m.snake.len() implies m.cell_at(
                #[trigger] m.snake[k],
            ) is Snake by {
                assert(m.snake[k] == Position((x + k) as usize, y));
                assert(m.cell(x + k, y as int) is Snake);
            }
            assert forall|k1: int, k2: int| 0 <= k1 < k2 < m.snake.len() implies m.snake[k1]
                != m.snake[k2] by {
                assert(m.snake[k1] == Position((x + k1) as usize, y));
                assert(m.snake[k2] == Position((x + k2) as usize, y));
            }
            assert forall|k: int| 0 <= k < m.snake.len() implies m.pos_in_bounds(
                #[trigger] m.snake[k],
            ) by {
                assert(m.snake[k] == Position((x + k) as usize, y));
            }
            assert(m.cell_at(Position(x, y)) == BrickType::SnakeHead(Direction::Up)) by {
                assert(m.cell(x as int, y as int) == BrickType::SnakeHead(Direction::Up));
            }
        }
    }

    /// Collect every empty cell and pick one uniformly at random; `None`
    /// exactly when the grid has no empty cell.
    pub fn find_valid_food_spawn(&self) -> (r: Option<Position>)
        requires
            self@.grid_shaped(),
        ensures
            match r {
                Some(p) => self@.pos_in_bounds(p) && self@.cell_at(p) is Empty,
                None => forall|a: int, b: int|
                    self@.in_bounds(a, b) ==> !(#[trigger] self@.cell(a, b) is Empty),
            },
    {
        let mut empty_bricks: Vec<Position> = Vec::new();
        let xs = self.x_size;
        let ys = self.y_size;
        for x in 0..xs
            invariant
                xs == self@.x_size,
                ys == self@.y_size,
                self@.grid_shaped(),
                forall|k: int|
                    0 <= k < empty_bricks@.len() ==> self@.pos_in_bounds(#[trigger] empty_bricks@[k])
                        && self@.cell_at(empty_bricks@[k]) is Empty,
                forall|a: int, b: int|
                    0 <= a < x && 0 <= b < ys && #[trigger] self@.cell(a, b) is Empty
                        ==> empty_bricks@.contains(Position(a as usize, b as usize)),
        {
            for y in 0..ys
                invariant
                    xs == self@.x_size,
                    ys == self@.y_size,
                    x < xs,
                    self@.grid_shaped(),
                    forall|k: int|
                        0 <= k < empty_bricks@.len() ==> self@.pos_in_bounds(
                            #[trigger] empty_bricks@[k],
                        ) && self@.cell_at(empty_bricks@[k]) is Empty,
                    forall|a: int, b: int|
                        0 <= a < x && 0 <= b < ys && #[trigger] self@.cell(a, b) is Empty
                            ==> empty_bricks@.contains(Position(a as usize, b as usize)),
                    forall|b: int|
                        0 <= b < y && #[trigger] self@.cell(x as int, b) is Empty
                            ==> empty_bricks@.contains(Position(x, b as usize)),
            {
                if self.board[x][y] == BrickType::Empty {
                    let ghost pre = empty_bricks@;
                    empty_bricks.push(Position(x, y));
                    proof {
                        assert forall|q: Position| pre.contains(q) implies empty_bricks@.contains(
                            q,
                        ) by {
                            let k = choose|k: int| 0 <= k < pre.len() && pre[k] == q;
                            assert(empty_bricks@[k] == q);
                        }
                        assert(empty_bricks@[empty_bricks@.len() - 1] == Position(x, y));
                        assert(empty_bricks@.contains(Position(x, y)));
                    }
                }
            }
        }
        if empty_bricks.len() == 0 {
            proof {
                assert forall|a: int, b: int| self@.in_bounds(a, b) implies !(#[trigger] self@.cell(
                    a,
                    b,
                ) is Empty) by {
                    if self@.cell(a, b) is Empty {
                        assert(empty_bricks@.contains(Position(a as usize, b as usize)));
                    }
                }
            }
            Option::None
        } else {
            let idx = crate::rng::random_below(empty_bricks.len());
            Option::Some(empty_bricks[idx])
        }
    }

    /// The cell layout of the default board before food is spawned: a wall
    /// ring, a four-segment snake centered in column `ys / 2` heading Up,
    /// and everything else empty.
    pub open spec fn default_layout_cell(xs: int, ys: int, a: int, b: int) -> BrickType {
        if b == ys / 2 && xs / 2 <= a < xs / 2 + 4 {
            if a == xs / 2 {
                BrickType::SnakeHead(Direction::Up)
            } else {
                BrickType::Snake(Direction::Up)
            }
        } else if a == 0 || a == xs - 1 || b == 0 || b == ys - 1 {
            BrickType::Wall
        } else {
            BrickType::Empty
        }
    }

    /// The default board: a walled rectangle, a centered snake of four
    /// segments heading Up, and one food item at a random empty cell. The
    /// dimension bounds leave room for the snake and guarantee an empty
    /// cell for the food.
    pub fn new_default(x_size: usize, y_size: usize) -> (b: Board)
        requires
            x_size >= 7,
            y_size >= 3,
        ensures
            b.wf(),
            b@.x_size == x_size,
            b@.y_size == y_size,
            b@.facing == Direction::Up,
            b@.last_step == Direction::Up,
            b@.initial_size == 4,
            b@.snake == Seq::new(4, |k: int| Position((x_size / 2 + k) as usize, y_size / 2)),
            b@.head == Position(x_size / 2, y_size / 2),
            exists|fp: Position|
                {
                    &&& #[trigger] b@.pos_in_bounds(fp)
                    &&& Board::default_layout_cell(
                        x_size as int,
                        y_size as int,
                        fp.0 as int,
                        fp.1 as int,
                    ) == BrickType::Empty
                    &&& forall|a: int, c: int|
                        b@.in_bounds(a, c) ==> #[trigger] b@.cell(a, c) == (if a == fp.0 && c
                            == fp.1 {
                            BrickType::Food
                        } else {
                            Board::default_layout_cell(x_size as int, y_size as int, a, c)
                        })
                },
    {
        let mut b = Self::new_empty(x_size, y_size);
        let ghost m0 = b@;
        b.create_wall_outline();
        let ghost m1 = b@;
        b.initial_size = 4;
        proof {
            assert(b@ == (BoardModel { initial_size: 4nat, ..m1 }));
        }
        let ghost m1b = b@;
        proof {
            assert forall|a: int, c: int| m1b.in_bounds(a, c) implies !BoardModel::is_snake_brick(
                #[trigger] m1b.cell(a, c),
            ) && !(m1b.cell(a, c) is Food) by {
                assert(m1b.cell(a, c) == m1.cell(a, c));
                assert(m0.cell(a, c) == BrickType::Empty);
            }
        }
        b.place_snake(x_size / 2, y_size / 2);
        let ghost m2 = b@;
        proof {
            let xs = x_size as int;
            let ys = y_size as int;
            assert forall|a: int, c: int| m2.in_bounds(a, c) implies #[trigger] m2.cell(a, c)
                == Board::default_layout_cell(xs, ys, a, c) by {
                assert(m1b.cell(a, c) == m1.cell(a, c));
                assert(m0.cell(a, c) == BrickType::Empty);
            }
        }
        let pos = b.find_valid_food_spawn();
        match pos {
            Option::Some(p) => {
                b.change_brick(p, BrickType::Food);
                proof {
                    let xs = x_size as int;
                    let ys = y_size as int;
                    let m3 = b@;
                    assert(m2.wf());
                    assert forall|a: int, c: int| m3.in_bounds(a, c) implies #[trigger] m3.cell(
                        a,
                        c,
                    ) == (if a == p.0 && c == p.1 {
                        BrickType::Food
                    } else {
                        Board::default_layout_cell(xs, ys, a, c)
                    }) by {
                        assert(m2.cell(a, c) == Board::default_layout_cell(xs, ys, a, c));
                    }
                    assert(!m2.snake.contains(p)) by {
                        if m2.snake.contains(p) {
                            assert(BoardModel::is_snake_brick(m2.cell(p.0 as int, p.1 as int)));
                        }
                    }
                    assert forall|a: int, c: int| m3.in_bounds(a, c) implies (
                    BoardModel::is_snake_brick(#[trigger] m3.cell(a, c)) <==> m3.snake.contains(
                        Position(a as usize, c as usize),
                    )) by {
                        assert(m2.cell(a, c) == Board::default_layout_cell(xs, ys, a, c));
                        if !(a == p.0 && c == p.1) {
                            assert(BoardModel::is_snake_brick(m2.cell(a, c))
                                <==> m2.snake.contains(Position(a as usize, c as usize)));
                        }
                    }
                    assert forall|k: int| 1 <= k < m3.snake.len() implies m3.cell_at(
                        #[trigger] m3.snake[k],
                    ) is Snake by {
                        assert(m3.snake[k] == m2.snake[k]);
                        assert(m2.cell_at(m2.snake[k]) is Snake);
                        let q = m2.snake[k];
                        assert(m3.cell(q.0 as int, q.1 as int) == m2.cell(q.0 as int, q.1 as int));
                    }
                    assert(m3.cell_at(m3.head) == BrickType::SnakeHead(m3.facing)) by {
                        assert(m2.cell_at(m2.head) == BrickType::SnakeHead(m2.facing));
                        assert(m3.cell(m2.head.0 as int, m2.head.1 as int) == m2.cell(
                            m2.head.0 as int,
                            m2.head.1 as int,
                        ));
                    }
                    assert(b.wf());
                    assert(b@.pos_in_bounds(p) && Board::default_layout_cell(
                        xs,
                        ys,
                        p.0 as int,
                        p.1 as int,
                    ) == BrickType::Empty) by {
                        assert(m2.cell(p.0 as int, p.1 as int) == Board::default_layout_cell(
                            xs,
                            ys,
                            p.0 as int,
                            p.1 as int,
                        ));
                    }
                }
            },
            Option::None => {
                proof {
                    assert(b@.cell(1, 1) == Board::default_layout_cell(
                        x_size as int,
                        y_size as int,
                        1,
                        1,
                    ));
                    assert(b@.cell(1, 1) is Empty);
                    assert(false);
                }
            },
        }
        b
    }

    /// The single mutation path for cells: write `b` at `p`, leaving every
    /// other cell and all remaining state untouched.
    pub(crate) fn change_brick(&mut self, p: Position, b: BrickType)
        requires
            old(self)@.grid_shaped(),
            old(self)@.pos_in_bounds(p),
        ensures
            final(self)@.grid_shaped(),
            final(self)@ == (BoardModel { grid: final(self)@.grid, ..old(self)@ }),
            final(self)@.grid == BoardModel::grid_with(old(self)@.grid, p.0 as int, p.1 as int, b),
            forall|a: int, c: int|
                old(self)@.in_bounds(a, c) ==> #[trigger] final(self)@.cell(a, c) == (if a == p.0
                    && c == p.1 {
                    b
                } else {
                    old(self)@.cell(a, c)
                }),
    {
        proof {
            assert(self.board@.len() == self@.grid.len());
            assert(self@.grid[p.0 as int] == self.board@[p.0 as int]@);
            assert(self@.grid[p.0 as int].len() == self@.y_size);
        }
        self.board[p.0][p.1] = b;
        proof {
            assert(self@.grid =~~= BoardModel::grid_with(
                old(self)@.grid,
                p.0 as int,
                p.1 as int,
                b,
            ));
            assert(self@ =~~= (BoardModel { grid: self@.grid, ..old(self)@ }));
            assert forall|a: int, c: int| old(self)@.in_bounds(a, c) implies #[trigger] self@.cell(
                a,
                c,
            ) == (if a == p.0 && c == p.1 {
                b
            } else {
                old(self)@.cell(a, c)
            }) by {
                assert(self@.cell(a, c) == self@.grid[a][c]);
                assert(old(self)@.cell(a, c) == old(self)@.grid[a][c]);
            }
        }
    }
}

} // verus!
