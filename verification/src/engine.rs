use vstd::prelude::*;

use crate::board::Board;
use crate::board::BoardModel;
use crate::board::BrickType;
use crate::board::Direction;
use crate::board::PortalData;
use crate::board::Position;

verus! {

/// What one tick's movement resolves to, after any portal traversal.
pub enum Resolution {
    /// The step ends in a fatal collision: a wall or snake cell, a move off
    /// the grid, or a portal chain that never settles.
    Blocked,
    /// The snake comes to rest on `pos` heading `dir`; `ate` says whether
    /// that cell held food.
    Landed { pos: Position, dir: Direction, ate: bool },
}

impl Resolution {
    pub open spec fn is_landed(self) -> bool {
        self is Landed
    }

    pub open spec fn landed_pos(self) -> Position {
        match self {
            Resolution::Landed { pos, .. } => pos,
            Resolution::Blocked => Position(0, 0),
        }
    }

    pub open spec fn landed_dir(self) -> Direction {
        match self {
            Resolution::Landed { dir, .. } => dir,
            Resolution::Blocked => Direction::Up,
        }
    }

    pub open spec fn landed_ate(self) -> bool {
        match self {
            Resolution::Landed { ate, .. } => ate,
            Resolution::Blocked => false,
        }
    }
}

impl BoardModel {
    /// Resolve a step aimed at `(x, y)` while heading `dir`: an empty or
    /// food cell is a landing, a wall or snake cell or a spot off the grid
    /// is a collision, and a portal forwards the step to its destination
    /// with the heading rotated, spending one unit of fuel per hop.
    pub open spec fn resolve(self, x: int, y: int, dir: Direction, fuel: nat) -> Resolution
        decreases fuel,
    {
        if !self.in_bounds(x, y) {
            Resolution::Blocked
        } else {
            match self.cell(x, y) {
                BrickType::Empty => Resolution::Landed {
                    pos: Position(x as usize, y as usize),
                    dir,
                    ate: false,
                },
                BrickType::Food => Resolution::Landed {
                    pos: Position(x as usize, y as usize),
                    dir,
                    ate: true,
                },
                BrickType::Wall => Resolution::Blocked,
                BrickType::Snake(_) => Resolution::Blocked,
                BrickType::SnakeHead(_) => Resolution::Blocked,
                BrickType::Portal(pd) => if fuel == 0 {
                    Resolution::Blocked
                } else {
                    self.resolve(
                        pd.destination.0 as int,
                        pd.destination.1 as int,
                        dir.spec_rotate(pd.rotation as int),
                        (fuel - 1) as nat,
                    )
                },
            }
        }
    }

    /// The portal-hop budget of one tick: one hop per grid cell, enough for
    /// every chain that never revisits a portal.
    pub open spec fn hop_fuel(self) -> nat {
        self.x_size * self.y_size
    }

    /// Where the next tick's movement ends up, starting one cell from the
    /// head in the facing direction.
    pub open spec fn step_target(self) -> Resolution {
        let (cx, cy) = Position::spec_move(self.head.0 as int, self.head.1 as int, self.facing);
        self.resolve(cx, cy, self.facing, self.hop_fuel())
    }

    /// The snake queue after advancing onto `pos`: the new head is pushed
    /// in front and, unless the snake grew, the tail is dropped.
    pub open spec fn advanced_snake(self, pos: Position, grow: bool) -> Seq<Position> {
        if grow {
            seq![pos] + self.snake
        } else {
            seq![pos] + self.snake.drop_last()
        }
    }

    /// The grid after advancing onto `pos` heading `dir`: the vacated tail
    /// cell is cleared (unless the snake grew), the landing cell becomes the
    /// head marker, and the previous front is repainted as a body segment.
    pub open spec fn advanced_grid(self, pos: Position, dir: Direction, grow: bool) -> Seq<
        Seq<BrickType>,
    > {
        let tail = self.snake.last();
        let g1 = if grow {
            self.grid
        } else {
            BoardModel::grid_with(self.grid, tail.0 as int, tail.1 as int, BrickType::Empty)
        };
        let g2 = BoardModel::grid_with(g1, pos.0 as int, pos.1 as int, BrickType::SnakeHead(dir));
        if self.advanced_snake(pos, grow).len() >= 2 {
            BoardModel::grid_with(
                g2,
                self.snake[0].0 as int,
                self.snake[0].1 as int,
                BrickType::Snake(dir),
            )
        } else {
            g2
        }
    }

    /// The board state right after the snake advanced onto `pos`, before
    /// any new food is spawned.
    pub open spec fn advanced(self, pos: Position, dir: Direction, grow: bool) -> BoardModel {
        BoardModel {
            grid: self.advanced_grid(pos, dir, grow),
            snake: self.advanced_snake(pos, grow),
            facing: dir,
            last_step: dir,
            head: pos,
            ..self
        }
    }

    /// How a food spawn relates the board before (`self`) and after
    /// (`post`): either some empty cell now holds food, or the board had no
    /// empty cell and is unchanged.
    pub open spec fn spawn_post(self, post: BoardModel) -> bool {
        ||| exists|fp: Position|
            {
                &&& #[trigger] self.pos_in_bounds(fp)
                &&& self.cell_at(fp) is Empty
                &&& post == (BoardModel {
                    grid: BoardModel::grid_with(self.grid, fp.0 as int, fp.1 as int, BrickType::Food),
                    ..self
                })
            }
        ||| {
            &&& forall|a: int, c: int| self.in_bounds(a, c) ==> !(#[trigger] self.cell(a, c) is Empty)
            &&& post == self
        }
    }

    /// The full contract of one tick: a blocked step reports death and
    /// leaves everything but the recorded last step untouched; a landing
    /// advances the snake (growing on food), sets both headings to the
    /// direction of arrival, and after a growth step a new food item is
    /// spawned at a random empty cell.
    pub open spec fn step_post(pre: BoardModel, post: BoardModel, alive: bool) -> bool {
        match pre.step_target() {
            Resolution::Blocked => !alive && post == (BoardModel { last_step: pre.facing, ..pre }),
            Resolution::Landed { pos, dir, ate } => {
                &&& alive
                &&& if ate {
                    pre.advanced(pos, dir, true).spawn_post(post)
                } else {
                    post == pre.advanced(pos, dir, false)
                }
            },
        }
    }
}

impl BrickType {
    /// The payload of a portal cell; arbitrary for any other cell.
    pub open spec fn portal_data(self) -> PortalData {
        match self {
            BrickType::Portal(pd) => pd,
            _ => PortalData { destination: Position(0, 0), colour: 0, rotation: 0 },
        }
    }
}

impl BoardModel {
    /// The set of grid cells carrying a snake marking (body or head).
    pub open spec fn snake_cells(self) -> Set<Position> {
        Set::new(
            |p: Position| self.pos_in_bounds(p) && BoardModel::is_snake_brick(self.cell_at(p)),
        )
    }

    /// Exactly one cell of the grid holds food.
    pub open spec fn exactly_one_food(self) -> bool {
        exists|p: Position|
            {
                &&& #[trigger] self.pos_in_bounds(p)
                &&& self.cell_at(p) is Food
                &&& forall|a: int, c: int|
                    self.in_bounds(a, c) && #[trigger] self.cell(a, c) is Food ==> a == p.0 && c
                        == p.1
            }
    }

    /// No cell of the grid holds food.
    pub open spec fn no_food(self) -> bool {
        forall|a: int, c: int| self.in_bounds(a, c) ==> !(#[trigger] self.cell(a, c) is Food)
    }

    /// No cell of the grid is empty.
    pub open spec fn no_empty(self) -> bool {
        forall|a: int, c: int| self.in_bounds(a, c) ==> !(#[trigger] self.cell(a, c) is Empty)
    }
}

/// On every well-formed board, the cells marked as snake are exactly the
/// queued positions: their number equals the snake queue's length, and the
/// head marker, carrying the current facing, sits at the queue's front.
pub proof fn lemma_snake_cells_match_queue(m: BoardModel)
    requires
        m.wf(),
    ensures
        m.snake_cells() == m.snake.to_set(),
        m.snake_cells().len() == m.snake.len(),
        m.snake.len() > 0 ==> m.snake_cells().contains(m.snake[0]) && m.cell_at(m.snake[0])
            == BrickType::SnakeHead(m.facing),
{
    assert forall|p: Position| m.snake_cells().contains(p) <==> m.snake.to_set().contains(p) by {
        if m.snake.to_set().contains(p) {
            assert(m.snake.contains(p));
            let k = choose|k: int| 0 <= k < m.snake.len() && m.snake[k] == p;
            assert(m.pos_in_bounds(m.snake[k]));
            assert(Position(p.0 as usize, p.1 as usize) == p);
            assert(BoardModel::is_snake_brick(m.cell(p.0 as int, p.1 as int)));
        }
        if m.snake_cells().contains(p) {
            assert(Position(p.0 as usize, p.1 as usize) == p);
            assert(m.snake.contains(p));
        }
    }
    assert(m.snake_cells() =~= m.snake.to_set());
    assert(m.snake.no_duplicates()) by {
        assert forall|i: int, j: int|
            0 <= i < m.snake.len() && 0 <= j < m.snake.len() && i != j implies m.snake[i]
            != m.snake[j] by {
            if i < j {
                assert(m.snake[i] != m.snake[j]);
            } else {
                assert(m.snake[j] != m.snake[i]);
            }
        }
    }
    m.snake.unique_seq_to_set();
    if m.snake.len() > 0 {
        assert(m.snake.to_set().contains(m.snake[0]));
    }
}

/// A landing reported by `resolve` always names an in-bounds cell that
/// holds food when `ate` is set, and is empty otherwise.
proof fn lemma_resolve_lands_on_cell(m: BoardModel, x: int, y: int, dir: Direction, fuel: nat)
    requires
        m.x_size <= usize::MAX,
        m.y_size <= usize::MAX,
        m.resolve(x, y, dir, fuel).is_landed(),
    ensures
        ({
            let r = m.resolve(x, y, dir, fuel);
            &&& m.pos_in_bounds(r.landed_pos())
            &&& m.cell_at(r.landed_pos()) == (if r.landed_ate() {
                BrickType::Food
            } else {
                BrickType::Empty
            })
        }),
    decreases fuel,
{
    if m.in_bounds(x, y) {
        match m.cell(x, y) {
            BrickType::Portal(pd) => {
                if fuel > 0 {
                    lemma_resolve_lands_on_cell(
                        m,
                        pd.destination.0 as int,
                        pd.destination.1 as int,
                        dir.spec_rotate(pd.rotation as int),
                        (fuel - 1) as nat,
                    );
                }
            },
            _ => {},
        }
    }
}

/// Stepping onto food grows the snake by exactly one segment, and exactly
/// one food cell remains afterwards — unless the advanced board had no
/// empty cell left, in which case no food remains at all.
pub proof fn lemma_step_onto_food(pre: BoardModel, post: BoardModel, alive: bool)
    requires
        pre.wf(),
        pre.snake.len() >= 1,
        BoardModel::step_post(pre, post, alive),
        pre.step_target().is_landed(),
        pre.step_target().landed_ate(),
    ensures
        alive,
        post.snake.len() == pre.snake.len() + 1,
        post.exactly_one_food() || (post.no_food() && post.no_empty()),
{
    let r = pre.step_target();
    let pos = r.landed_pos();
    let dir = r.landed_dir();
    let (cx, cy) = Position::spec_move(pre.head.0 as int, pre.head.1 as int, pre.facing);
    lemma_resolve_lands_on_cell(pre, cx, cy, pre.facing, pre.hop_fuel());
    let mid = pre.advanced(pos, dir, true);
    lemma_advance_preserves_wf(pre, pos, dir, true);
    assert forall|a: int, c: int| mid.in_bounds(a, c) implies !(#[trigger] mid.cell(
        a,
        c,
    ) is Food) by {
        if mid.cell(a, c) is Food {
            assert(pre.cell(a, c) is Food);
            assert(pre.cell(pos.0 as int, pos.1 as int) is Food);
            assert(a == pos.0 && c == pos.1);
            assert(mid.cell(a, c) == BrickType::SnakeHead(dir));
        }
    }
    assert(mid.spawn_post(post));
    if exists|fp: Position|
        {
            &&& #[trigger] mid.pos_in_bounds(fp)
            &&& mid.cell_at(fp) is Empty
            &&& post == (BoardModel {
                grid: BoardModel::grid_with(mid.grid, fp.0 as int, fp.1 as int, BrickType::Food),
                ..mid
            })
        } {
        let fp = choose|fp: Position|
            {
                &&& #[trigger] mid.pos_in_bounds(fp)
                &&& mid.cell_at(fp) is Empty
                &&& post == (BoardModel {
                    grid: BoardModel::grid_with(mid.grid, fp.0 as int, fp.1 as int, BrickType::Food),
                    ..mid
                })
            };
        assert forall|a: int, c: int|
            post.in_bounds(a, c) && #[trigger] post.cell(a, c) is Food implies a == fp.0 && c
            == fp.1 by {
            if !(a == fp.0 as int && c == fp.1 as int) {
                assert(post.cell(a, c) == mid.cell(a, c));
            }
        }
        assert(post.pos_in_bounds(fp) && post.cell_at(fp) is Food) by {
            assert(post.cell(fp.0 as int, fp.1 as int) == BrickType::Food);
        }
        assert(post.exactly_one_food());
    } else {
        assert(post == mid);
        assert(post.no_food());
        assert(post.no_empty());
    }
}

/// Stepping onto an empty cell keeps the snake's length and shifts the
/// occupied-cell set by exactly one cell: the old tail leaves it and the
/// landing cell joins it.
pub proof fn lemma_step_onto_empty(pre: BoardModel, post: BoardModel, alive: bool)
    requires
        pre.wf(),
        pre.snake.len() >= 1,
        BoardModel::step_post(pre, post, alive),
        pre.step_target().is_landed(),
        !pre.step_target().landed_ate(),
    ensures
        alive,
        post.snake.len() == pre.snake.len(),
        post.snake.to_set() == pre.snake.to_set().remove(pre.snake.last()).insert(
            pre.step_target().landed_pos(),
        ),
        post.cell_at(pre.snake.last()) is Empty,
        post.cell_at(pre.step_target().landed_pos()) == BrickType::SnakeHead(
            pre.step_target().landed_dir(),
        ),
{
    let r = pre.step_target();
    let pos = r.landed_pos();
    let s = pre.snake;
    let ns = post.snake;
    let (cx, cy) = Position::spec_move(pre.head.0 as int, pre.head.1 as int, pre.facing);
    lemma_resolve_lands_on_cell(pre, cx, cy, pre.facing, pre.hop_fuel());
    lemma_advance_preserves_wf(pre, pos, r.landed_dir(), false);
    assert(post.cell_at(pre.snake.last()) is Empty) by {
        let tail = pre.snake.last();
        assert(pre.snake.contains(tail));
        if post.snake.len() >= 2 && tail.0 as int == pre.snake[0].0 as int && tail.1 as int
            == pre.snake[0].1 as int {
            assert(tail == pre.snake[0]);
            assert(pre.snake[0] != pre.snake[pre.snake.len() - 1]);
        }
        if tail.0 as int == pos.0 as int && tail.1 as int == pos.1 as int {
            assert(tail == pos);
            assert(BoardModel::is_snake_brick(pre.cell(pos.0 as int, pos.1 as int)));
        }
        assert(post.cell(tail.0 as int, tail.1 as int) == BrickType::Empty);
    }
    assert(post.cell_at(pos) == BrickType::SnakeHead(r.landed_dir())) by {
        assert(post.cell_at(post.head) == BrickType::SnakeHead(post.facing));
    }
    assert(!s.contains(pos)) by {
        if s.contains(pos) {
            assert(BoardModel::is_snake_brick(pre.cell(pos.0 as int, pos.1 as int)));
        }
    }
    assert(ns == seq![pos] + s.drop_last());
    assert forall|q: Position| ns.to_set().contains(q) <==> s.to_set().remove(s.last()).insert(
        pos,
    ).contains(q) by {
        if ns.to_set().contains(q) {
            assert(ns.contains(q));
            let k = choose|k: int| 0 <= k < ns.len() && ns[k] == q;
            if k == 0 {
                assert(q == pos);
            } else {
                assert(ns[k] == s[k - 1]);
                assert(s.contains(q));
                assert(q != s.last()) by {
                    assert(s[k - 1] != s[s.len() - 1]);
                }
            }
        }
        if s.to_set().remove(s.last()).insert(pos).contains(q) {
            if q == pos {
                assert(ns[0] == q);
                assert(ns.contains(q));
            } else {
                assert(s.contains(q) && q != s.last());
                let k = choose|k: int| 0 <= k < s.len() && s[k] == q;
                assert(k < s.len() - 1) by {
                    if k == s.len() - 1 {
                        assert(s[k] == s.last());
                    }
                }
                assert(ns[k + 1] == s[k]);
                assert(ns.contains(q));
            }
        }
    }
    assert(ns.to_set() =~= s.to_set().remove(s.last()).insert(pos));
}

/// A blocked step reports death and leaves the board's grid, snake queue,
/// facing, head and score baseline exactly as they were; only the record
/// of the applied step is refreshed.
pub proof fn lemma_step_blocked(pre: BoardModel, post: BoardModel, alive: bool)
    requires
        BoardModel::step_post(pre, post, alive),
        !pre.step_target().is_landed(),
    ensures
        !alive,
        post.grid == pre.grid,
        post.snake == pre.snake,
        post.facing == pre.facing,
        post.head == pre.head,
        post.initial_size == pre.initial_size,
        post.last_step == pre.facing,
{
}

/// Well-formedness does not depend on the recorded last step.
proof fn lemma_wf_ignores_last_step(pre: BoardModel, d: Direction)
    requires
        pre.wf(),
    ensures
        (BoardModel { last_step: d, ..pre }).wf(),
{
    let m = BoardModel { last_step: d, ..pre };
    assert forall|a: int, c: int| m.in_bounds(a, c) implies #[trigger] m.cell(a, c) == pre.cell(
        a,
        c,
    ) by {}
    assert forall|k: int| 1 <= k < m.snake.len() implies m.cell_at(
        #[trigger] m.snake[k],
    ) is Snake by {
        let q = m.snake[k];
        assert(m.cell(q.0 as int, q.1 as int) == pre.cell(q.0 as int, q.1 as int));
    }
    if m.snake.len() > 0 {
        assert(m.cell_at(m.head) == BrickType::SnakeHead(m.facing)) by {
            assert(m.cell(m.head.0 as int, m.head.1 as int) == pre.cell(
                pre.head.0 as int,
                pre.head.1 as int,
            ));
        }
    }
}

/// Entering a portal rotates the heading by the portal's stored rotation —
/// the new ordinal is `(facing + rotation) mod 4` — and relocates the step
/// onto the portal's destination, where resolution continues as usual.
pub proof fn lemma_portal_traversal(m: BoardModel, x: int, y: int, dir: Direction, fuel: nat)
    requires
        m.in_bounds(x, y),
        m.cell(x, y) is Portal,
        fuel >= 1,
    ensures
        ({
            let pd = m.cell(x, y).portal_data();
            let out = dir.spec_rotate(pd.rotation as int);
            &&& m.resolve(x, y, dir, fuel) == m.resolve(
                pd.destination.0 as int,
                pd.destination.1 as int,
                out,
                (fuel - 1) as nat,
            )
            &&& out.ord() == (dir.ord() + pd.rotation) % 4
        }),
{
    let pd = m.cell(x, y).portal_data();
    let out = dir.spec_rotate(pd.rotation as int);
    assert(out.ord() == (dir.ord() + pd.rotation) % 4) by {
        assert(0 <= dir.ord() + pd.rotation);
    }
}

/// After a landing on `pos`, the advanced board is again well-formed: the
/// grid writes (tail cleared, head marker laid, old front repainted) agree
/// exactly with the queue after the push and pop.
proof fn lemma_advance_preserves_wf(pre: BoardModel, pos: Position, dir: Direction, grow: bool)
    requires
        pre.wf(),
        pre.snake.len() >= 1,
        pre.pos_in_bounds(pos),
        pre.cell_at(pos) is Empty || pre.cell_at(pos) is Food,
    ensures
        pre.advanced(pos, dir, grow).wf(),
        forall|a: int, c: int|
            pre.in_bounds(a, c) ==> #[trigger] pre.advanced(pos, dir, grow).cell(a, c) == (if pre.advanced(
                pos,
                dir,
                grow,
            ).snake.len() >= 2 && a == pre.snake[0].0 as int && c == pre.snake[0].1 as int {
                BrickType::Snake(dir)
            } else if a == pos.0 as int && c == pos.1 as int {
                BrickType::SnakeHead(dir)
            } else if !grow && a == pre.snake.last().0 as int && c == pre.snake.last().1 as int {
                BrickType::Empty
            } else {
                pre.cell(a, c)
            }),
{
    let post = pre.advanced(pos, dir, grow);
    let s = pre.snake;
    let ns = post.snake;
    let tail = s.last();
    let front = s[0];
    let second_painted = ns.len() >= 2;
    assert(!s.contains(pos)) by {
        if s.contains(pos) {
            assert(BoardModel::is_snake_brick(pre.cell(pos.0 as int, pos.1 as int)));
        }
    }
    assert(ns[0] == pos);
    assert forall|k: int| 1 <= k < ns.len() implies #[trigger] ns[k] == s[k - 1] by {}
    assert forall|a: int, c: int| pre.in_bounds(a, c) implies #[trigger] post.cell(a, c) == (
    if second_painted && a == front.0 as int && c == front.1 as int {
        BrickType::Snake(dir)
    } else if a == pos.0 as int && c == pos.1 as int {
        BrickType::SnakeHead(dir)
    } else if !grow && a == tail.0 as int && c == tail.1 as int {
        BrickType::Empty
    } else {
        pre.cell(a, c)
    }) by {
        let g1 = if grow {
            pre.grid
        } else {
            BoardModel::grid_with(pre.grid, tail.0 as int, tail.1 as int, BrickType::Empty)
        };
        let g2 = BoardModel::grid_with(g1, pos.0 as int, pos.1 as int, BrickType::SnakeHead(dir));
        assert(g1[a][c] == (if !grow && a == tail.0 as int && c == tail.1 as int {
            BrickType::Empty
        } else {
            pre.cell(a, c)
        }));
        assert(g2[a][c] == (if a == pos.0 as int && c == pos.1 as int {
            BrickType::SnakeHead(dir)
        } else {
            g1[a][c]
        }));
    }
    // the grid keeps its rectangular shape
    assert forall|i: int| 0 <= i < post.x_size implies (#[trigger] post.grid[i]).len()
        == post.y_size by {
        let g1 = if grow {
            pre.grid
        } else {
            BoardModel::grid_with(pre.grid, tail.0 as int, tail.1 as int, BrickType::Empty)
        };
        let g2 = BoardModel::grid_with(g1, pos.0 as int, pos.1 as int, BrickType::SnakeHead(dir));
        assert(g1[i].len() == pre.grid[i].len());
        assert(g2[i].len() == g1[i].len());
    }
    // the queue stays in bounds and duplicate-free
    assert forall|k: int| 0 <= k < ns.len() implies post.pos_in_bounds(#[trigger] ns[k]) by {
        if k >= 1 {
            assert(ns[k] == s[k - 1]);
        }
    }
    assert forall|k1: int, k2: int| 0 <= k1 < k2 < ns.len() implies ns[k1] != ns[k2] by {
        assert(ns[k2] == s[k2 - 1]);
        if k1 >= 1 {
            assert(ns[k1] == s[k1 - 1]);
        }
    }
    // the grid markings mirror the new queue
    assert forall|a: int, c: int| post.in_bounds(a, c) implies (BoardModel::is_snake_brick(
        #[trigger] post.cell(a, c),
    ) <==> ns.contains(Position(a as usize, c as usize))) by {
        let q = Position(a as usize, c as usize);
        if BoardModel::is_snake_brick(post.cell(a, c)) {
            if second_painted && a == front.0 as int && c == front.1 as int {
                assert(q == front && ns[1] == front);
                assert(ns.contains(q));
            } else if a == pos.0 as int && c == pos.1 as int {
                assert(ns[0] == q);
                assert(ns.contains(q));
            } else if !grow && a == tail.0 as int && c == tail.1 as int {
                assert(post.cell(a, c) == BrickType::Empty);
                assert(false);
            } else {
                assert(post.cell(a, c) == pre.cell(a, c));
                assert(s.contains(q));
                let k = choose|k: int| 0 <= k < s.len() && s[k] == q;
                if !grow {
                    assert(q != tail);
                    assert(k < s.len() - 1) by {
                        if k == s.len() - 1 {
                            assert(s[k] == tail);
                        }
                    }
                }
                assert(ns[k + 1] == s[k]);
                assert(ns.contains(q));
            }
        }
        if ns.contains(q) {
            let k = choose|k: int| 0 <= k < ns.len() && ns[k] == q;
            if k == 0 {
                assert(q == pos);
                assert(a == pos.0 as int && c == pos.1 as int);
                assert(!(second_painted && a == front.0 as int && c == front.1 as int)) by {
                    if a == front.0 as int && c == front.1 as int {
                        assert(pos == front);
                        assert(s.contains(front));
                    }
                }
                assert(post.cell(a, c) == BrickType::SnakeHead(dir));
            } else {
                assert(ns[k] == s[k - 1]);
                assert(s.contains(q));
                assert(BoardModel::is_snake_brick(pre.cell(a, c)));
                if !(second_painted && a == front.0 as int && c == front.1 as int) {
                    assert(!(a == pos.0 as int && c == pos.1 as int)) by {
                        if a == pos.0 as int && c == pos.1 as int {
                            assert(q == pos);
                            assert(s.contains(pos));
                        }
                    }
                    if !grow {
                        assert(!(a == tail.0 as int && c == tail.1 as int)) by {
                            if a == tail.0 as int && c == tail.1 as int {
                                assert(q == tail);
                                assert(s[k - 1] == s[s.len() - 1]);
                                assert(k - 1 < s.len() - 1);
                            }
                        }
                    }
                    assert(post.cell(a, c) == pre.cell(a, c));
                }
            }
        }
    }
    // only the front carries the head marker
    assert forall|k: int| 1 <= k < ns.len() implies post.cell_at(#[trigger] ns[k]) is Snake by {
        assert(ns[k] == s[k - 1]);
        let q = s[k - 1];
        if k == 1 {
            assert(q == front && second_painted);
            assert(post.cell(q.0 as int, q.1 as int) == BrickType::Snake(dir));
        } else {
            assert(pre.cell_at(q) is Snake);
            assert(q != front && q != pos && (grow || q != tail)) by {
                assert(s[k - 1] != s[0]);
                if !grow {
                    assert(k - 1 < s.len() - 1);
                    assert(s[k - 1] != s[s.len() - 1]);
                }
            }
            assert(post.cell(q.0 as int, q.1 as int) == pre.cell(q.0 as int, q.1 as int));
        }
    }
    // the head cache and marker
    assert(post.cell_at(post.head) == BrickType::SnakeHead(post.facing)) by {
        assert(!(second_painted && pos.0 as int == front.0 as int && pos.1 as int
            == front.1 as int)) by {
            if second_painted && pos.0 == front.0 && pos.1 == front.1 {
                assert(pos == front);
                assert(s.contains(pos));
            }
        }
        assert(post.cell(pos.0 as int, pos.1 as int) == BrickType::SnakeHead(dir));
    }
    // food was never written, so at most one food cell remains
    assert forall|x1: int, y1: int, x2: int, y2: int|
        post.in_bounds(x1, y1) && post.in_bounds(x2, y2) && #[trigger] post.cell(x1, y1) is Food
            && #[trigger] post.cell(x2, y2) is Food implies x1 == x2 && y1 == y2 by {
        assert(pre.cell(x1, y1) is Food);
        assert(pre.cell(x2, y2) is Food);
    }
}

impl Board {
    /// Point the snake at `dir` for the next tick, unless `dir` exactly
    /// reverses the previously applied step; the head marker is repainted
    /// with the accepted heading at once.
    pub fn turn(&mut self, dir: Direction)
        requires
            old(self).wf(),
            old(self)@.snake.len() >= 1,
        ensures
            final(self).wf(),
            final(self)@.facing == (if dir == old(self)@.last_step.spec_mirror() {
                old(self)@.facing
            } else {
                dir
            }),
            final(self)@.snake == old(self)@.snake,
            final(self)@.last_step == old(self)@.last_step,
            final(self)@.head == old(self)@.head,
            final(self)@.x_size == old(self)@.x_size,
            final(self)@.y_size == old(self)@.y_size,
            final(self)@.initial_size == old(self)@.initial_size,
            dir == old(self)@.last_step.spec_mirror() ==> final(self)@ == old(self)@,
            dir != old(self)@.last_step.spec_mirror() ==> forall|a: int, c: int|
                old(self)@.in_bounds(a, c) ==> #[trigger] final(self)@.cell(a, c) == (if a
                    == old(self)@.head.0 && c == old(self)@.head.1 {
                    BrickType::SnakeHead(dir)
                } else {
                    old(self)@.cell(a, c)
                }),
    {
        let blocked_dir = self.last_step().mirror();
        if !(dir == blocked_dir) {
            self.set_facing(dir);
            let ghost mid = self@;
            let head = self.get_head();
            self.change_brick(head, BrickType::SnakeHead(dir));
            proof {
                let m = self@;
                assert forall|a: int, c: int| old(self)@.in_bounds(a, c) implies #[trigger] m.cell(
                    a,
                    c,
                ) == (if a == old(self)@.head.0 && c == old(self)@.head.1 {
                    BrickType::SnakeHead(dir)
                } else {
                    old(self)@.cell(a, c)
                }) by {
                    assert(mid.cell(a, c) == old(self)@.cell(a, c));
                }
                assert forall|k: int| 1 <= k < m.snake.len() implies m.cell_at(
                    #[trigger] m.snake[k],
                ) is Snake by {
                    let q = m.snake[k];
                    assert(m.cell(q.0 as int, q.1 as int) == old(self)@.cell(q.0 as int, q.1 as int));
                    assert(old(self)@.cell_at(q) is Snake);
                }
                assert(m.cell_at(m.head) == BrickType::SnakeHead(m.facing)) by {
                    assert(m.cell(m.head.0 as int, m.head.1 as int) == BrickType::SnakeHead(dir));
                }
            }
        }
    }

    /// Move the snake onto `pos` heading `dir`: push the new head, clear
    /// the vacated tail unless the snake grows, and repaint the markers.
    fn advance(&mut self, pos: Position, dir: Direction, grow: bool)
        requires
            old(self).wf(),
            old(self)@.snake.len() >= 1,
            old(self)@.pos_in_bounds(pos),
            old(self)@.cell_at(pos) is Empty || old(self)@.cell_at(pos) is Food,
        ensures
            final(self)@ == old(self)@.advanced(pos, dir, grow),
            final(self).wf(),
    {
        proof {
            lemma_advance_preserves_wf(old(self)@, pos, dir, grow);
        }
        if !grow {
            let back = self.snake_pop_back();
            match back {
                Option::Some(b) => {
                    self.change_brick(b, BrickType::Empty);
                },
                Option::None => {
                    proof {
                        assert(false);
                    }
                },
            }
        }
        self.snake_push_front(pos);
        self.set_head_cache(pos);
        self.set_facing(dir);
        self.set_last_step(dir);
        self.change_brick(pos, BrickType::SnakeHead(dir));
        if self.snake_len() >= 2 {
            let second = self.snake_segment(1);
            self.change_brick(second, BrickType::Snake(dir));
        }
        proof {
            assert(self@ =~~= old(self)@.advanced(pos, dir, grow));
        }
    }

    /// Spawn one food item at a random empty cell; on a board with no empty
    /// cell nothing happens.
    fn spawn_food(&mut self)
        requires
            old(self).wf(),
            forall|a: int, c: int|
                old(self)@.in_bounds(a, c) ==> !(#[trigger] old(self)@.cell(a, c) is Food),
        ensures
            final(self).wf(),
            old(self)@.spawn_post(final(self)@),
    {
        let pos = self.find_valid_food_spawn();
        match pos {
            Option::Some(p) => {
                proof {
                    assert(!old(self)@.snake.contains(p)) by {
                        if old(self)@.snake.contains(p) {
                            assert(BoardModel::is_snake_brick(
                                old(self)@.cell(p.0 as int, p.1 as int),
                            ));
                        }
                    }
                }
                self.change_brick(p, BrickType::Food);
                proof {
                    let m = self@;
                    let pre = old(self)@;
                    assert(m == (BoardModel {
                        grid: BoardModel::grid_with(pre.grid, p.0 as int, p.1 as int, BrickType::Food),
                        ..pre
                    }));
                    assert(pre.spawn_post(m));
                    assert forall|a: int, c: int| m.in_bounds(a, c) implies (
                    BoardModel::is_snake_brick(#[trigger] m.cell(a, c)) <==> m.snake.contains(
                        Position(a as usize, c as usize),
                    )) by {
                        assert(m.cell(a, c) == (if a == p.0 && c == p.1 {
                            BrickType::Food
                        } else {
                            pre.cell(a, c)
                        }));
                        if a == p.0 && c == p.1 {
                            assert(Position(a as usize, c as usize) == p);
                        }
                    }
                    assert forall|k: int| 1 <= k < m.snake.len() implies m.cell_at(
                        #[trigger] m.snake[k],
                    ) is Snake by {
                        let q = m.snake[k];
                        assert(pre.cell_at(q) is Snake);
                        assert(m.cell(q.0 as int, q.1 as int) == pre.cell(q.0 as int, q.1 as int));
                    }
                    if m.snake.len() > 0 {
                        assert(m.cell_at(m.head) == BrickType::SnakeHead(m.facing)) by {
                            assert(pre.cell_at(pre.head) == BrickType::SnakeHead(pre.facing));
                            assert(m.cell(pre.head.0 as int, pre.head.1 as int) == pre.cell(
                                pre.head.0 as int,
                                pre.head.1 as int,
                            ));
                        }
                    }
                }
            },
            Option::None => {
            },
        }
    }

    /// Advance the game by one tick: resolve the cell one step ahead of the
    /// head (following portal chains), then either advance the snake —
    /// growing and respawning food when the target held food — or report a
    /// fatal collision, leaving the board untouched.
    pub fn step(&mut self) -> (alive: bool)
        requires
            old(self).wf(),
            old(self)@.snake.len() >= 1,
        ensures
            final(self).wf(),
            BoardModel::step_post(old(self)@, final(self)@, alive),
            alive == old(self)@.step_target().is_landed(),
    {
        let ghost pre = self@;
        let xs = self.x_size();
        let ys = self.y_size();
        let head = self.get_head();
        let mut dir = self.facing();
        proof {
            assert(pre.pos_in_bounds(pre.head)) by {
                assert(pre.snake[0] == pre.head);
            }
        }
        let first = head.checked_move(xs, ys, self.facing());
        let mut cand: Position = match first {
            Option::Some(c) => c,
            Option::None => {
                proof {
                    let (cx, cy) = Position::spec_move(
                        pre.head.0 as int,
                        pre.head.1 as int,
                        pre.facing,
                    );
                    assert(pre.resolve(cx, cy, pre.facing, pre.hop_fuel()) == Resolution::Blocked);
                    lemma_wf_ignores_last_step(pre, pre.facing);
                }
                self.set_last_step(dir);
                return false;
            },
        };
        proof {
            assert((xs as int) * (ys as int) == pre.hop_fuel() && (xs as int) * (ys as int)
                < u128::MAX) by (nonlinear_arith)
                requires
                    xs == pre.x_size,
                    ys == pre.y_size,
                    xs <= u64::MAX,
                    ys <= u64::MAX,
            ;
        }
        let mut fuel: u128 = (xs as u128) * (ys as u128);
        let mut ate: bool = false;
        let mut blocked: bool = false;
        loop
            invariant_except_break
                pre.resolve(cand.0 as int, cand.1 as int, dir, fuel as nat) == pre.step_target(),
                ate == false,
                blocked == false,
            invariant
                self@ == pre,
                pre.wf(),
                pre.snake.len() >= 1,
                pre.pos_in_bounds(cand),
                fuel <= pre.hop_fuel(),
                xs == pre.x_size,
                ys == pre.y_size,
            ensures
                self@ == pre,
                pre.pos_in_bounds(cand),
                if blocked {
                    pre.step_target() == Resolution::Blocked
                } else {
                    pre.step_target() == (Resolution::Landed { pos: cand, dir, ate })
                        && pre.cell_at(cand) == (if ate {
                        BrickType::Food
                    } else {
                        BrickType::Empty
                    })
                },
            decreases fuel,
        {
            let ghost fuel0 = fuel as nat;
            let ghost dir0 = dir;
            let brick = self.brick_at(cand);
            match brick {
                BrickType::Empty => {
                    proof {
                        assert(pre.resolve(cand.0 as int, cand.1 as int, dir, fuel as nat)
                            == (Resolution::Landed { pos: cand, dir, ate: false }));
                    }
                    break ;
                },
                BrickType::Food => {
                    ate = true;
                    proof {
                        assert(pre.resolve(cand.0 as int, cand.1 as int, dir, fuel as nat)
                            == (Resolution::Landed { pos: cand, dir, ate: true }));
                    }
                    break ;
                },
                BrickType::Portal(pd) => {
                    if fuel == 0 {
                        proof {
                            assert(pre.resolve(cand.0 as int, cand.1 as int, dir, 0nat)
                                == Resolution::Blocked);
                        }
                        blocked = true;
                        break ;
                    }
                    fuel = fuel - 1;
                    dir = dir.rotate(pd.rotation);
                    proof {
                        assert(pre.resolve(cand.0 as int, cand.1 as int, dir0, fuel0)
                            == pre.resolve(
                            pd.destination.0 as int,
                            pd.destination.1 as int,
                            dir,
                            fuel as nat,
                        ));
                    }
                    if pd.destination.0 >= xs || pd.destination.1 >= ys {
                        proof {
                            assert(!pre.in_bounds(pd.destination.0 as int, pd.destination.1 as int));
                            assert(pre.resolve(
                                pd.destination.0 as int,
                                pd.destination.1 as int,
                                dir,
                                fuel as nat,
                            ) == Resolution::Blocked);
                        }
                        blocked = true;
                        break ;
                    }
                    cand = pd.destination;
                },
                BrickType::Wall => {
                    proof {
                        assert(pre.resolve(cand.0 as int, cand.1 as int, dir, fuel as nat)
                            == Resolution::Blocked);
                    }
                    blocked = true;
                    break ;
                },
                BrickType::Snake(_) => {
                    proof {
                        assert(pre.resolve(cand.0 as int, cand.1 as int, dir, fuel as nat)
                            == Resolution::Blocked);
                    }
                    blocked = true;
                    break ;
                },
                BrickType::SnakeHead(_) => {
                    proof {
                        assert(pre.resolve(cand.0 as int, cand.1 as int, dir, fuel as nat)
                            == Resolution::Blocked);
                    }
                    blocked = true;
                    break ;
                },
            }
        }
        if blocked {
            proof {
                lemma_wf_ignores_last_step(pre, pre.facing);
            }
            let entry_facing = self.facing();
            self.set_last_step(entry_facing);
            return false;
        }
        self.advance(cand, dir, ate);
        if ate {
            proof {
                let mid = pre.advanced(cand, dir, true);
                lemma_advance_preserves_wf(pre, cand, dir, true);
                assert forall|a: int, c: int| mid.in_bounds(a, c) implies !(#[trigger] mid.cell(
                    a,
                    c,
                ) is Food) by {
                    if mid.cell(a, c) is Food {
                        assert(pre.cell(a, c) is Food);
                        assert(pre.cell(cand.0 as int, cand.1 as int) is Food);
                        assert(a == cand.0 && c == cand.1);
                        assert(mid.cell(a, c) == BrickType::SnakeHead(dir));
                    }
                }
            }
            self.spawn_food();
        }
        true
    }
}

} // verus!
