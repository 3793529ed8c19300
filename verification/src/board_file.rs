use vstd::prelude::*;

use crate::board::Board;
use crate::board::BoardModel;
use crate::board::BrickType;
use crate::board::Direction;
use crate::board::PortalData;
use crate::board::Position;

verus! {

/// Is `b` an ASCII decimal digit?
pub open spec fn is_digit(b: u8) -> bool {
    48 <= b <= 57
}

/// Is `b` ASCII whitespace (space, tab, or a line-break character)?
pub open spec fn is_space(b: u8) -> bool {
    b == 32 || b == 9 || b == 10 || b == 11 || b == 12 || b == 13
}

/// Does `s` consist of digits only?
pub open spec fn all_digits(s: Seq<u8>) -> bool {
    forall|i: int| 0 <= i < s.len() ==> is_digit(#[trigger] s[i])
}

/// The numeric value of a digit string, most significant digit first.
pub open spec fn dec_value(s: Seq<u8>) -> int
    decreases s.len(),
{
    if s.len() == 0 {
        0
    } else {
        dec_value(s.drop_last()) * 10 + (s.last() - 48)
    }
}

/// The value of a token as a non-negative decimal number no larger than
/// `max`: `None` for an empty token, a non-digit byte, or a value out of
/// range.
pub open spec fn spec_parse_bounded(s: Seq<u8>, max: int) -> Option<int> {
    if s.len() >= 1 && all_digits(s) && dec_value(s) <= max {
        Some(dec_value(s))
    } else {
        None
    }
}

/// The length of the leading run of non-space bytes.
pub open spec fn first_token_len(s: Seq<u8>) -> nat
    decreases s.len(),
{
    if s.len() == 0 || is_space(s[0]) {
        0
    } else {
        1 + first_token_len(s.drop_first())
    }
}

/// The whitespace-separated tokens of `s`, in order: the maximal runs of
/// non-space bytes.
pub open spec fn spec_tokens(s: Seq<u8>) -> Seq<Seq<u8>>
    decreases s.len(),
    via spec_tokens_decreases
{
    if s.len() == 0 {
        Seq::empty()
    } else if is_space(s[0]) {
        spec_tokens(s.drop_first())
    } else {
        let n = first_token_len(s) as int;
        seq![s.subrange(0, n)] + spec_tokens(s.subrange(n, s.len() as int))
    }
}

#[via_fn]
proof fn spec_tokens_decreases(s: Seq<u8>) {
    lemma_first_token_len(s);
}

/// `first_token_len` is positive on a non-space start and never exceeds the
/// length; every byte inside the run is non-space, and the byte after it,
/// if any, is a space.
proof fn lemma_first_token_len(s: Seq<u8>)
    ensures
        0 <= first_token_len(s) <= s.len(),
        forall|i: int| 0 <= i < first_token_len(s) ==> !is_space(#[trigger] s[i]),
        first_token_len(s) < s.len() ==> is_space(s[first_token_len(s) as int]),
        s.len() > 0 && !is_space(s[0]) ==> first_token_len(s) >= 1,
    decreases s.len(),
{
    if s.len() == 0 || is_space(s[0]) {
    } else {
        lemma_first_token_len(s.drop_first());
        let n = first_token_len(s);
        assert forall|i: int| 0 <= i < n implies !is_space(#[trigger] s[i]) by {
            if i >= 1 {
                assert(!is_space(s.drop_first()[i - 1]));
            }
        }
        if n < s.len() {
            assert(is_space(s.drop_first()[n - 1]));
        }
    }
}

/// A scan that found non-space bytes up to `n` and a space (or the end) at
/// `n` has found exactly the leading token.
proof fn lemma_first_token_len_determined(s: Seq<u8>, n: int)
    requires
        0 <= n <= s.len(),
        forall|i: int| 0 <= i < n ==> !is_space(#[trigger] s[i]),
        n < s.len() ==> is_space(s[n]),
    ensures
        first_token_len(s) == n,
    decreases s.len(),
{
    if n == 0 {
    } else {
        assert(!is_space(s[0]));
        lemma_first_token_len_determined(s.drop_first(), n - 1);
    }
}

/// Read the token starting at `i` in `line` (a non-space byte) up to the
/// next space or the end of the line.
fn scan_token(line: &Vec<u8>, i: usize) -> (j: usize)
    requires
        i < line@.len(),
        !is_space(line@[i as int]),
    ensures
        i < j <= line@.len(),
        j - i == first_token_len(line@.subrange(i as int, line@.len() as int)),
{
    let n = line.len();
    let mut j = i + 1;
    while j < n
        invariant
            i < j <= n,
            n == line@.len(),
            forall|k: int| i <= k < j ==> !is_space(#[trigger] line@[k]),
        ensures
            i < j <= n,
            forall|k: int| i <= k < j ==> !is_space(#[trigger] line@[k]),
            j < n ==> is_space(line@[j as int]),
        decreases n - j,
    {
        if is_space_byte(line[j]) {
            break ;
        }
        j += 1;
    }
    proof {
        let suffix = line@.subrange(i as int, n as int);
        assert forall|k: int| 0 <= k < j - i implies !is_space(#[trigger] suffix[k]) by {
            assert(suffix[k] == line@[i + k]);
        }
        if j < n {
            assert(is_space(suffix[j - i]));
        }
        lemma_first_token_len_determined(suffix, j - i);
    }
    j
}

/// Is this byte ASCII whitespace?
fn is_space_byte(b: u8) -> (r: bool)
    ensures
        r == is_space(b),
{
    b == 32 || b == 9 || b == 10 || b == 11 || b == 12 || b == 13
}

/// Copy `line[i..j]` into a fresh vector.
fn copy_range(line: &Vec<u8>, i: usize, j: usize) -> (r: Vec<u8>)
    requires
        i <= j <= line@.len(),
    ensures
        r@ == line@.subrange(i as int, j as int),
{
    let mut r: Vec<u8> = Vec::new();
    let mut k = i;
    while k < j
        invariant
            i <= k <= j <= line@.len(),
            r@ == line@.subrange(i as int, k as int),
        decreases j - k,
    {
        r.push(line[k]);
        k += 1;
        proof {
            assert(r@ =~= line@.subrange(i as int, k as int));
        }
    }
    r
}

/// The tokens of `line` from position `i` on, matching
/// `spec_tokens(line[i..])`.
fn tokens_from(line: &Vec<u8>, i: usize) -> (r: Vec<Vec<u8>>)
    requires
        i <= line@.len(),
    ensures
        r.deep_view() == spec_tokens(line@.subrange(i as int, line@.len() as int)),
    decreases line@.len() - i,
{
    let n = line.len();
    let ghost suffix = line@.subrange(i as int, n as int);
    if i == n {
        let r: Vec<Vec<u8>> = Vec::new();
        proof {
            assert(r.deep_view() =~= spec_tokens(suffix));
        }
        r
    } else if is_space_byte(line[i]) {
        let r = tokens_from(line, i + 1);
        proof {
            assert(suffix.drop_first() =~= line@.subrange(i + 1, n as int));
        }
        r
    } else {
        let j = scan_token(line, i);
        let tok = copy_range(line, i, j);
        let mut rest = tokens_from(line, j);
        rest.insert(0, tok);
        proof {
            let ftl = first_token_len(suffix) as int;
            assert(tok@ =~= suffix.subrange(0, ftl));
            assert(line@.subrange(j as int, n as int) =~= suffix.subrange(
                ftl,
                suffix.len() as int,
            ));
            assert(rest.deep_view() =~~= spec_tokens(suffix));
        }
        rest
    }
}

/// Split a line into its whitespace-separated tokens.
pub fn split_tokens(line: &Vec<u8>) -> (r: Vec<Vec<u8>>)
    ensures
        r.deep_view() == spec_tokens(line@),
{
    let r = tokens_from(line, 0);
    proof {
        assert(line@.subrange(0, line@.len() as int) =~= line@);
    }
    r
}

/// The value of a digit string never shrinks as more digits are read.
proof fn lemma_dec_value_monotonic(s: Seq<u8>, i: int, j: int)
    requires
        0 <= i <= j <= s.len(),
        all_digits(s),
    ensures
        0 <= dec_value(s.subrange(0, i)) <= dec_value(s.subrange(0, j)),
    decreases j - i,
{
    lemma_dec_value_nonneg(s.subrange(0, i));
    if i < j {
        lemma_dec_value_monotonic(s, i + 1, j);
        let p = s.subrange(0, i + 1);
        assert(p.drop_last() =~= s.subrange(0, i));
        lemma_dec_value_nonneg(s.subrange(0, i));
        assert(dec_value(p) == dec_value(s.subrange(0, i)) * 10 + (s[i] - 48));
        assert(dec_value(s.subrange(0, i)) <= dec_value(s.subrange(0, i)) * 10) by (nonlinear_arith)
            requires
                dec_value(s.subrange(0, i)) >= 0,
        ;
    }
}

/// A digit string's value is non-negative.
proof fn lemma_dec_value_nonneg(s: Seq<u8>)
    requires
        all_digits(s),
    ensures
        dec_value(s) >= 0,
    decreases s.len(),
{
    if s.len() > 0 {
        assert(all_digits(s.drop_last()));
        lemma_dec_value_nonneg(s.drop_last());
        assert(dec_value(s.drop_last()) * 10 >= 0) by (nonlinear_arith)
            requires
                dec_value(s.drop_last()) >= 0,
        ;
    }
}

/// Parse a token as a decimal number no larger than `max`.
fn parse_bounded(tok: &Vec<u8>, max: usize) -> (r: Option<usize>)
    ensures
        match r {
            Some(v) => spec_parse_bounded(tok@, max as int) == Some(v as int),
            None => spec_parse_bounded(tok@, max as int) is None,
        },
{
    let n = tok.len();
    if n == 0 {
        return Option::None;
    }
    let mut value: usize = 0;
    let mut k: usize = 0;
    while k < n
        invariant
            0 <= k <= n,
            n == tok@.len(),
            forall|i: int| 0 <= i < k ==> is_digit(#[trigger] tok@[i]),
            value == dec_value(tok@.subrange(0, k as int)),
            value <= max,
            max <= usize::MAX,
        decreases n - k,
    {
        let b = tok[k];
        if b < 48 || b > 57 {
            return Option::None;
        }
        let d = (b - 48) as usize;
        proof {
            assert(tok@.subrange(0, k + 1).drop_last() =~= tok@.subrange(0, k as int));
        }
        if d > max || value > (max - d) / 10 {
            proof {
                assert(all_digits(tok@.subrange(0, k + 1)));
                assert(dec_value(tok@.subrange(0, k + 1)) == value * 10 + d);
                assert(value * 10 + d > max) by (nonlinear_arith)
                    requires
                        d > max || value > (max - d) / 10,
                        0 <= d <= 9,
                        0 <= max,
                        0 <= value,
                ;
                if all_digits(tok@) {
                    lemma_dec_value_monotonic(tok@, k + 1, n as int);
                    assert(tok@.subrange(0, n as int) =~= tok@);
                }
            }
            return Option::None;
        }
        value = value * 10 + d;
        k += 1;
    }
    proof {
        assert(tok@.subrange(0, n as int) =~= tok@);
    }
    Option::Some(value)
}

/// A run read from a directive line: a start cell, a length and a heading.
#[derive(Copy, Clone, Debug, PartialEq, Eq, Structural)]
pub struct SimpleBar {
    pub pos: Position,
    pub len: usize,
    pub dir: Direction,
}

/// The run described by four tokens: `x y len dir`, each a bounded decimal
/// number; the heading is taken modulo 4. Extra tokens are ignored.
pub open spec fn spec_simple_bar(toks: Seq<Seq<u8>>) -> Option<SimpleBar> {
    if toks.len() < 4 {
        None
    } else {
        let x = spec_parse_bounded(toks[0], usize::MAX as int);
        let y = spec_parse_bounded(toks[1], usize::MAX as int);
        let len = spec_parse_bounded(toks[2], usize::MAX as int);
        let d = spec_parse_bounded(toks[3], u8::MAX as int);
        if x is Some && y is Some && len is Some && d is Some {
            Some(
                SimpleBar {
                    pos: Position(x.unwrap() as usize, y.unwrap() as usize),
                    len: len.unwrap() as usize,
                    dir: Direction::spec_from_primitive(d.unwrap()),
                },
            )
        } else {
            None
        }
    }
}

impl SimpleBar {
    /// Read `x y len dir` from the tokens starting at `start`.
    pub fn from_line(toks: &Vec<Vec<u8>>, start: usize) -> (r: Option<SimpleBar>)
        requires
            start <= toks@.len(),
        ensures
            r == spec_simple_bar(toks.deep_view().skip(start as int)),
    {
        let ghost suffix = toks.deep_view().skip(start as int);
        if toks.len() - start < 4 {
            return Option::None;
        }
        proof {
            assert forall|i: int| 0 <= i < 4 implies #[trigger] suffix[i] == toks@[start + i]@ by {}
        }
        let x = parse_bounded(&toks[start], usize::MAX);
        let y = parse_bounded(&toks[start + 1], usize::MAX);
        let len = parse_bounded(&toks[start + 2], usize::MAX);
        let d = parse_bounded(&toks[start + 3], 255);
        match (x, y, len, d) {
            (Option::Some(x), Option::Some(y), Option::Some(len), Option::Some(d)) => Option::Some(
                SimpleBar { pos: Position(x, y), len, dir: Direction::from_primitive(d as u8) },
            ),
            _ => Option::None,
        }
    }
}

/// A `W` directive: a run of wall cells.
#[derive(Copy, Clone, Debug, PartialEq, Eq, Structural)]
pub struct WallBar {
    pub base: SimpleBar,
}

pub open spec fn spec_wall_bar(toks: Seq<Seq<u8>>) -> Option<WallBar> {
    match spec_simple_bar(toks) {
        Some(base) => Some(WallBar { base }),
        None => None,
    }
}

/// An `S` directive: a run of snake segments.
#[derive(Copy, Clone, Debug, PartialEq, Eq, Structural)]
pub struct SnakeBar {
    pub base: SimpleBar,
}

pub open spec fn spec_snake_bar(toks: Seq<Seq<u8>>) -> Option<SnakeBar> {
    match spec_simple_bar(toks) {
        Some(base) => Some(SnakeBar { base }),
        None => None,
    }
}

/// A `P` directive: a run of portal cells with their destinations.
#[derive(Copy, Clone, Debug, PartialEq, Eq, Structural)]
pub struct PortalBar {
    pub base: SimpleBar,
    pub destination: Position,
    pub rotation: u8,
    pub mirror: bool,
    pub colour: i16,
}

/// The portal run described by nine tokens: the base run, then
/// `destX destY rotation mirror colour`. The rotation is taken modulo 4.
pub open spec fn spec_portal_bar(toks: Seq<Seq<u8>>) -> Option<PortalBar> {
    match spec_simple_bar(toks) {
        None => None,
        Some(base) => {
            if toks.len() < 9 {
                None
            } else {
                let x = spec_parse_bounded(toks[4], usize::MAX as int);
                let y = spec_parse_bounded(toks[5], usize::MAX as int);
                let rot = spec_parse_bounded(toks[6], u8::MAX as int);
                let mir = spec_parse_bounded(toks[7], u8::MAX as int);
                let col = spec_parse_bounded(toks[8], i16::MAX as int);
                if x is Some && y is Some && rot is Some && mir is Some && col is Some {
                    Some(
                        PortalBar {
                            base,
                            destination: Position(x.unwrap() as usize, y.unwrap() as usize),
                            rotation: (rot.unwrap() % 4) as u8,
                            mirror: mir.unwrap() != 0,
                            colour: col.unwrap() as i16,
                        },
                    )
                } else {
                    None
                }
            }
        },
    }
}

/// The grid after painting `len` wall cells from `(x, y)` along `dir`:
/// `None` when a painted cell leaves the grid or would overwrite a snake
/// segment.
pub open spec fn spec_apply_wall(
    m: BoardModel,
    x: int,
    y: int,
    len: nat,
    dir: Direction,
) -> Option<BoardModel>
    decreases len,
{
    if len == 0 {
        Some(m)
    } else if !m.in_bounds(x, y) || BoardModel::is_snake_brick(m.cell(x, y)) {
        None
    } else {
        let m2 = BoardModel { grid: BoardModel::grid_with(m.grid, x, y, BrickType::Wall), ..m };
        let (nx, ny) = Position::spec_move(x, y, dir);
        spec_apply_wall(m2, nx, ny, (len - 1) as nat, dir)
    }
}

/// The board after painting `len` snake segments from `(x, y)` along
/// `dir`, each pushed onto the front of the queue in paint order, with
/// both headings finally set to `dir`. `None` when a painted cell leaves
/// the grid or is already a snake segment.
pub open spec fn spec_apply_snake(
    m: BoardModel,
    x: int,
    y: int,
    len: nat,
    dir: Direction,
) -> Option<BoardModel>
    decreases len,
{
    if len == 0 {
        Some(BoardModel { facing: dir, last_step: dir, ..m })
    } else if !m.in_bounds(x, y) || BoardModel::is_snake_brick(m.cell(x, y)) {
        None
    } else {
        let m2 = BoardModel {
            grid: BoardModel::grid_with(m.grid, x, y, BrickType::Snake(dir)),
            snake: seq![Position(x as usize, y as usize)] + m.snake,
            ..m
        };
        let (nx, ny) = Position::spec_move(x, y, dir);
        spec_apply_snake(m2, nx, ny, (len - 1) as nat, dir)
    }
}

/// The grid after painting `len` portal cells from `(sx, sy)` along
/// `sdir`, whose destinations start at `(dx, dy)` and step along `ddir`.
/// `None` when a source cell leaves the grid or would overwrite a snake
/// segment, or when a destination leaves the grid.
pub open spec fn spec_apply_portal(
    m: BoardModel,
    sx: int,
    sy: int,
    dx: int,
    dy: int,
    len: nat,
    sdir: Direction,
    ddir: Direction,
    out_rot: u8,
    colour: i16,
) -> Option<BoardModel>
    decreases len,
{
    if len == 0 {
        Some(m)
    } else if !m.in_bounds(sx, sy) || BoardModel::is_snake_brick(m.cell(sx, sy)) || !m.in_bounds(
        dx,
        dy,
    ) {
        None
    } else {
        let pd = PortalData {
            destination: Position(dx as usize, dy as usize),
            colour,
            rotation: out_rot,
        };
        let m2 = BoardModel {
            grid: BoardModel::grid_with(m.grid, sx, sy, BrickType::Portal(pd)),
            ..m
        };
        let (nsx, nsy) = Position::spec_move(sx, sy, sdir);
        let (ndx, ndy) = Position::spec_move(dx, dy, ddir);
        spec_apply_portal(m2, nsx, nsy, ndx, ndy, (len - 1) as nat, sdir, ddir, out_rot, colour)
    }
}

impl WallBar {
    /// Paint the bar's wall cells; `false` when a cell leaves the grid or
    /// would overwrite a snake segment, leaving a partly painted grid that
    /// the caller discards.
    pub fn apply(&self, board: &mut Board) -> (ok: bool)
        requires
            old(board)@.grid_shaped(),
        ensures
            final(board)@.grid_shaped(),
            ok == (spec_apply_wall(
                old(board)@,
                self.base.pos.0 as int,
                self.base.pos.1 as int,
                self.base.len as nat,
                self.base.dir,
            ) is Some),
            ok ==> Some(final(board)@) == spec_apply_wall(
                old(board)@,
                self.base.pos.0 as int,
                self.base.pos.1 as int,
                self.base.len as nat,
                self.base.dir,
            ),
    {
        let ghost goal = spec_apply_wall(
            old(board)@,
            self.base.pos.0 as int,
            self.base.pos.1 as int,
            self.base.len as nat,
            self.base.dir,
        );
        let xs = board.x_size();
        let ys = board.y_size();
        let dir = self.base.dir;
        let mut pos = self.base.pos;
        let mut remaining = self.base.len;
        let ghost mut gx = pos.0 as int;
        let ghost mut gy = pos.1 as int;
        while remaining > 0
            invariant
                board@.grid_shaped(),
                xs == board@.x_size,
                ys == board@.y_size,
                remaining > 0 ==> gx == pos.0 as int && gy == pos.1 as int,
                spec_apply_wall(board@, gx, gy, remaining as nat, dir) == goal,
                goal == spec_apply_wall(
                    old(board)@,
                    self.base.pos.0 as int,
                    self.base.pos.1 as int,
                    self.base.len as nat,
                    self.base.dir,
                ),
            decreases remaining,
        {
            if pos.0 >= xs || pos.1 >= ys {
                proof {
                    assert(spec_apply_wall(board@, gx, gy, remaining as nat, dir) is None);
                }
                return false;
            }
            let b = board.brick_at(pos);
            match b {
                BrickType::Snake(_) => {
                    proof {
                        assert(spec_apply_wall(board@, gx, gy, remaining as nat, dir) is None);
                    }
                    return false;
                },
                BrickType::SnakeHead(_) => {
                    proof {
                        assert(spec_apply_wall(board@, gx, gy, remaining as nat, dir) is None);
                    }
                    return false;
                },
                _ => {},
            }
            board.change_brick(pos, BrickType::Wall);
            remaining = remaining - 1;
            proof {
                let (nx, ny) = Position::spec_move(gx, gy, dir);
                gx = nx;
                gy = ny;
                assert(spec_apply_wall(board@, gx, gy, remaining as nat, dir) == goal);
            }
            if remaining > 0 {
                match pos.checked_move(xs, ys, dir) {
                    Option::Some(p) => {
                        pos = p;
                    },
                    Option::None => {
                        proof {
                            assert(spec_apply_wall(board@, gx, gy, remaining as nat, dir) is None);
                        }
                        return false;
                    },
                }
            }
        }
        true
    }

    pub fn from_line(toks: &Vec<Vec<u8>>, start: usize) -> (r: Option<WallBar>)
        requires
            start <= toks@.len(),
        ensures
            r == spec_wall_bar(toks.deep_view().skip(start as int)),
    {
        match SimpleBar::from_line(toks, start) {
            Option::Some(base) => Option::Some(WallBar { base }),
            Option::None => Option::None,
        }
    }
}

impl SnakeBar {
    /// Paint the bar's snake segments, pushing each onto the front of the
    /// queue in paint order, and set both headings to the bar's direction;
    /// `false` when a cell leaves the grid or is already a snake segment,
    /// leaving a partly painted board that the caller discards.
    pub fn apply(&self, board: &mut Board) -> (ok: bool)
        requires
            old(board)@.grid_shaped(),
        ensures
            final(board)@.grid_shaped(),
            ok == (spec_apply_snake(
                old(board)@,
                self.base.pos.0 as int,
                self.base.pos.1 as int,
                self.base.len as nat,
                self.base.dir,
            ) is Some),
            ok ==> Some(final(board)@) == spec_apply_snake(
                old(board)@,
                self.base.pos.0 as int,
                self.base.pos.1 as int,
                self.base.len as nat,
                self.base.dir,
            ),
    {
        let ghost goal = spec_apply_snake(
            old(board)@,
            self.base.pos.0 as int,
            self.base.pos.1 as int,
            self.base.len as nat,
            self.base.dir,
        );
        let xs = board.x_size();
        let ys = board.y_size();
        let dir = self.base.dir;
        let mut pos = self.base.pos;
        let mut remaining = self.base.len;
        let ghost mut gx = pos.0 as int;
        let ghost mut gy = pos.1 as int;
        while remaining > 0
            invariant
                board@.grid_shaped(),
                xs == board@.x_size,
                ys == board@.y_size,
                dir == self.base.dir,
                remaining > 0 ==> gx == pos.0 as int && gy == pos.1 as int,
                spec_apply_snake(board@, gx, gy, remaining as nat, dir) == goal,
                goal == spec_apply_snake(
                    old(board)@,
                    self.base.pos.0 as int,
                    self.base.pos.1 as int,
                    self.base.len as nat,
                    self.base.dir,
                ),
            decreases remaining,
        {
            if pos.0 >= xs || pos.1 >= ys {
                proof {
                    assert(spec_apply_snake(board@, gx, gy, remaining as nat, dir) is None);
                }
                return false;
            }
            let b = board.brick_at(pos);
            match b {
                BrickType::Snake(_) => {
                    proof {
                        assert(spec_apply_snake(board@, gx, gy, remaining as nat, dir) is None);
                    }
                    return false;
                },
                BrickType::SnakeHead(_) => {
                    proof {
                        assert(spec_apply_snake(board@, gx, gy, remaining as nat, dir) is None);
                    }
                    return false;
                },
                _ => {},
            }
            let ghost before = board@;
            board.change_brick(pos, BrickType::Snake(dir));
            board.snake_push_front(pos);
            remaining = remaining - 1;
            proof {
                assert(board@ == (BoardModel {
                    grid: BoardModel::grid_with(before.grid, gx, gy, BrickType::Snake(dir)),
                    snake: seq![Position(gx as usize, gy as usize)] + before.snake,
                    ..before
                }));
                let (nx, ny) = Position::spec_move(gx, gy, dir);
                gx = nx;
                gy = ny;
                assert(spec_apply_snake(board@, gx, gy, remaining as nat, dir) == goal);
            }
            if remaining > 0 {
                match pos.checked_move(xs, ys, dir) {
                    Option::Some(p) => {
                        pos = p;
                    },
                    Option::None => {
                        proof {
                            assert(spec_apply_snake(board@, gx, gy, remaining as nat, dir) is None);
                        }
                        return false;
                    },
                }
            }
        }
        board.set_facing(dir);
        board.set_last_step(dir);
        true
    }

    pub fn from_line(toks: &Vec<Vec<u8>>, start: usize) -> (r: Option<SnakeBar>)
        requires
            start <= toks@.len(),
        ensures
            r == spec_snake_bar(toks.deep_view().skip(start as int)),
    {
        match SimpleBar::from_line(toks, start) {
            Option::Some(base) => Option::Some(SnakeBar { base }),
            Option::None => Option::None,
        }
    }
}

impl PortalBar {
    /// The rotation written into the painted portals: the bar's rotation,
    /// reversed by a half turn when the bar mirrors.
    pub open spec fn out_rotation(self) -> u8 {
        if self.mirror {
            (self.rotation + 2) as u8
        } else {
            self.rotation
        }
    }

    /// The heading along which the destinations step: the source heading
    /// rotated by the bar's rotation.
    pub open spec fn dest_dir(self) -> Direction {
        self.base.dir.spec_rotate(self.rotation as int)
    }

    /// Paint the bar's portal cells, pairing the k-th source cell with the
    /// k-th destination cell; `false` when a source cell leaves the grid or
    /// would overwrite a snake segment, or a destination leaves the grid,
    /// leaving a partly painted grid that the caller discards.
    pub fn apply(&self, board: &mut Board) -> (ok: bool)
        requires
            old(board)@.grid_shaped(),
            self.rotation < 4,
        ensures
            final(board)@.grid_shaped(),
            ok == (spec_apply_portal(
                old(board)@,
                self.base.pos.0 as int,
                self.base.pos.1 as int,
                self.destination.0 as int,
                self.destination.1 as int,
                self.base.len as nat,
                self.base.dir,
                self.dest_dir(),
                self.out_rotation(),
                self.colour,
            ) is Some),
            ok ==> Some(final(board)@) == spec_apply_portal(
                old(board)@,
                self.base.pos.0 as int,
                self.base.pos.1 as int,
                self.destination.0 as int,
                self.destination.1 as int,
                self.base.len as nat,
                self.base.dir,
                self.dest_dir(),
                self.out_rotation(),
                self.colour,
            ),
    {
        let ghost goal = spec_apply_portal(
            old(board)@,
            self.base.pos.0 as int,
            self.base.pos.1 as int,
            self.destination.0 as int,
            self.destination.1 as int,
            self.base.len as nat,
            self.base.dir,
            self.dest_dir(),
            self.out_rotation(),
            self.colour,
        );
        let xs = board.x_size();
        let ys = board.y_size();
        let sdir = self.base.dir;
        let ddir = self.base.dir.rotate(self.rotation);
        let out_rot: u8 = if self.mirror {
            self.rotation + 2
        } else {
            self.rotation
        };
        let colour = self.colour;
        let mut src = self.base.pos;
        let mut dst = self.destination;
        let mut remaining = self.base.len;
        let ghost mut gsx = src.0 as int;
        let ghost mut gsy = src.1 as int;
        let ghost mut gdx = dst.0 as int;
        let ghost mut gdy = dst.1 as int;
        while remaining > 0
            invariant
                board@.grid_shaped(),
                xs == board@.x_size,
                ys == board@.y_size,
                sdir == self.base.dir,
                ddir == self.dest_dir(),
                out_rot == self.out_rotation(),
                colour == self.colour,
                remaining > 0 ==> gsx == src.0 as int && gsy == src.1 as int && gdx == dst.0 as int
                    && gdy == dst.1 as int,
                spec_apply_portal(
                    board@,
                    gsx,
                    gsy,
                    gdx,
                    gdy,
                    remaining as nat,
                    sdir,
                    ddir,
                    out_rot,
                    colour,
                ) == goal,
                goal == spec_apply_portal(
                    old(board)@,
                    self.base.pos.0 as int,
                    self.base.pos.1 as int,
                    self.destination.0 as int,
                    self.destination.1 as int,
                    self.base.len as nat,
                    self.base.dir,
                    self.dest_dir(),
                    self.out_rotation(),
                    self.colour,
                ),
            decreases remaining,
        {
            if src.0 >= xs || src.1 >= ys || dst.0 >= xs || dst.1 >= ys {
                proof {
                    assert(spec_apply_portal(
                        board@,
                        gsx,
                        gsy,
                        gdx,
                        gdy,
                        remaining as nat,
                        sdir,
                        ddir,
                        out_rot,
                        colour,
                    ) is None);
                }
                return false;
            }
            let b = board.brick_at(src);
            match b {
                BrickType::Snake(_) => {
                    proof {
                        assert(spec_apply_portal(
                            board@,
                            gsx,
                            gsy,
                            gdx,
                            gdy,
                            remaining as nat,
                            sdir,
                            ddir,
                            out_rot,
                            colour,
                        ) is None);
                    }
                    return false;
                },
                BrickType::SnakeHead(_) => {
                    proof {
                        assert(spec_apply_portal(
                            board@,
                            gsx,
                            gsy,
                            gdx,
                            gdy,
                            remaining as nat,
                            sdir,
                            ddir,
                            out_rot,
                            colour,
                        ) is None);
                    }
                    return false;
                },
                _ => {},
            }
            board.change_brick(
                src,
                BrickType::Portal(PortalData { destination: dst, colour, rotation: out_rot }),
            );
            remaining = remaining - 1;
            proof {
                let (nsx, nsy) = Position::spec_move(gsx, gsy, sdir);
                let (ndx, ndy) = Position::spec_move(gdx, gdy, ddir);
                gsx = nsx;
                gsy = nsy;
                gdx = ndx;
                gdy = ndy;
                assert(spec_apply_portal(
                    board@,
                    gsx,
                    gsy,
                    gdx,
                    gdy,
                    remaining as nat,
                    sdir,
                    ddir,
                    out_rot,
                    colour,
                ) == goal);
            }
            if remaining > 0 {
                let next_src = src.checked_move(xs, ys, sdir);
                let next_dst = dst.checked_move(xs, ys, ddir);
                match (next_src, next_dst) {
                    (Option::Some(p), Option::Some(q)) => {
                        src = p;
                        dst = q;
                    },
                    _ => {
                        proof {
                            assert(spec_apply_portal(
                                board@,
                                gsx,
                                gsy,
                                gdx,
                                gdy,
                                remaining as nat,
                                sdir,
                                ddir,
                                out_rot,
                                colour,
                            ) is None);
                        }
                        return false;
                    },
                }
            }
        }
        true
    }

    pub fn from_line(toks: &Vec<Vec<u8>>, start: usize) -> (r: Option<PortalBar>)
        requires
            start <= toks@.len(),
        ensures
            r == spec_portal_bar(toks.deep_view().skip(start as int)),
    {
        let ghost suffix = toks.deep_view().skip(start as int);
        let base = match SimpleBar::from_line(toks, start) {
            Option::Some(base) => base,
            Option::None => {
                return Option::None;
            },
        };
        if toks.len() - start < 9 {
            return Option::None;
        }
        proof {
            assert forall|i: int| 0 <= i < 9 implies #[trigger] suffix[i] == toks@[start + i]@ by {}
        }
        let x = parse_bounded(&toks[start + 4], usize::MAX);
        let y = parse_bounded(&toks[start + 5], usize::MAX);
        let rot = parse_bounded(&toks[start + 6], 255);
        let mir = parse_bounded(&toks[start + 7], 255);
        let col = parse_bounded(&toks[start + 8], 32767);
        match (x, y, rot, mir, col) {
            (
                Option::Some(x),
                Option::Some(y),
                Option::Some(rot),
                Option::Some(mir),
                Option::Some(col),
            ) => Option::Some(
                PortalBar {
                    base,
                    destination: Position(x, y),
                    rotation: (rot % 4) as u8,
                    mirror: mir != 0,
                    colour: col as i16,
                },
            ),
            _ => Option::None,
        }
    }
}

/// The state of a board still under construction: the grid mirrors the
/// snake queue, no head marker and no food have been laid yet, and the
/// score baseline is unset.
spec fn building(m: BoardModel) -> bool {
    &&& m.grid_matches_snake()
    &&& m.no_food()
    &&& forall|a: int, c: int| m.in_bounds(a, c) ==> !(#[trigger] m.cell(a, c) is SnakeHead)
    &&& m.initial_size == 0
}

/// Painting a wall or portal cell over a non-snake cell keeps the board
/// in its under-construction state.
proof fn lemma_paint_preserves_building(m: BoardModel, x: int, y: int, b: BrickType)
    requires
        building(m),
        m.in_bounds(x, y),
        !BoardModel::is_snake_brick(m.cell(x, y)),
        !BoardModel::is_snake_brick(b),
        !(b is Food),
    ensures
        building((BoardModel { grid: BoardModel::grid_with(m.grid, x, y, b), ..m })),
{
    let m2 = BoardModel { grid: BoardModel::grid_with(m.grid, x, y, b), ..m };
    assert forall|i: int| 0 <= i < m2.x_size implies (#[trigger] m2.grid[i]).len()
        == m2.y_size by {
        assert(m2.grid[i].len() == m.grid[i].len());
    }
    assert forall|a: int, c: int| m.in_bounds(a, c) implies #[trigger] m2.cell(a, c) == (if a == x
        && c == y {
        b
    } else {
        m.cell(a, c)
    }) by {}
    assert(!m.snake.contains(Position(x as usize, y as usize))) by {
        if m.snake.contains(Position(x as usize, y as usize)) {
            assert(BoardModel::is_snake_brick(m.cell(x, y)));
        }
    }
    assert forall|a: int, c: int| m2.in_bounds(a, c) implies (BoardModel::is_snake_brick(
        #[trigger] m2.cell(a, c),
    ) <==> m2.snake.contains(Position(a as usize, c as usize))) by {
        if !(a == x && c == y) {
            assert(m2.cell(a, c) == m.cell(a, c));
        }
    }
}

/// Painting a snake segment onto a non-snake cell and pushing it onto the
/// queue's front keeps the board in its under-construction state.
proof fn lemma_snake_paint_preserves_building(m: BoardModel, x: int, y: int, dir: Direction)
    requires
        building(m),
        m.in_bounds(x, y),
        !BoardModel::is_snake_brick(m.cell(x, y)),
    ensures
        building(
            (BoardModel {
                grid: BoardModel::grid_with(m.grid, x, y, BrickType::Snake(dir)),
                snake: seq![Position(x as usize, y as usize)] + m.snake,
                ..m
            }),
        ),
{
    let q = Position(x as usize, y as usize);
    let m2 = BoardModel {
        grid: BoardModel::grid_with(m.grid, x, y, BrickType::Snake(dir)),
        snake: seq![q] + m.snake,
        ..m
    };
    let ns = m2.snake;
    assert(!m.snake.contains(q)) by {
        if m.snake.contains(q) {
            assert(BoardModel::is_snake_brick(m.cell(x, y)));
        }
    }
    assert forall|i: int| 0 <= i < m2.x_size implies (#[trigger] m2.grid[i]).len()
        == m2.y_size by {
        assert(m2.grid[i].len() == m.grid[i].len());
    }
    assert forall|a: int, c: int| m.in_bounds(a, c) implies #[trigger] m2.cell(a, c) == (if a == x
        && c == y {
        BrickType::Snake(dir)
    } else {
        m.cell(a, c)
    }) by {}
    assert(ns[0] == q);
    assert forall|k: int| 1 <= k < ns.len() implies #[trigger] ns[k] == m.snake[k - 1] by {}
    assert forall|k: int| 0 <= k < ns.len() implies m2.pos_in_bounds(#[trigger] ns[k]) by {
        if k >= 1 {
            assert(ns[k] == m.snake[k - 1]);
        }
    }
    assert forall|k1: int, k2: int| 0 <= k1 < k2 < ns.len() implies ns[k1] != ns[k2] by {
        assert(ns[k2] == m.snake[k2 - 1]);
        if k1 >= 1 {
            assert(ns[k1] == m.snake[k1 - 1]);
        } else {
            assert(m.snake.contains(m.snake[k2 - 1]));
        }
    }
    assert forall|a: int, c: int| m2.in_bounds(a, c) implies (BoardModel::is_snake_brick(
        #[trigger] m2.cell(a, c),
    ) <==> ns.contains(Position(a as usize, c as usize))) by {
        let p = Position(a as usize, c as usize);
        if a == x && c == y {
            assert(p == q && ns[0] == q);
            assert(ns.contains(p));
        } else {
            assert(m2.cell(a, c) == m.cell(a, c));
            if BoardModel::is_snake_brick(m.cell(a, c)) {
                let k = choose|k: int| 0 <= k < m.snake.len() && m.snake[k] == p;
                assert(ns[k + 1] == p);
                assert(ns.contains(p));
            }
            if ns.contains(p) {
                let k = choose|k: int| 0 <= k < ns.len() && ns[k] == p;
                assert(k >= 1) by {
                    if k == 0 {
                        assert(p == q);
                    }
                }
                assert(ns[k] == m.snake[k - 1]);
                assert(m.snake.contains(p));
            }
        }
    }
    assert forall|k: int| 1 <= k < ns.len() implies m2.cell_at(#[trigger] ns[k]) is Snake by {
        let p = m.snake[k - 1];
        assert(ns[k] == p);
        assert(m.snake.contains(p));
        assert(BoardModel::is_snake_brick(m.cell(p.0 as int, p.1 as int)));
        assert(!(m.cell(p.0 as int, p.1 as int) is SnakeHead));
        assert(p != q);
        assert(m2.cell(p.0 as int, p.1 as int) == m.cell(p.0 as int, p.1 as int));
    }
}

/// A successful wall run keeps the under-construction state and changes
/// only the grid.
proof fn lemma_apply_wall_building(m: BoardModel, x: int, y: int, len: nat, dir: Direction)
    requires
        building(m),
        spec_apply_wall(m, x, y, len, dir) is Some,
    ensures
        ({
            let m2 = spec_apply_wall(m, x, y, len, dir).unwrap();
            building(m2) && m2 == (BoardModel { grid: m2.grid, ..m })
        }),
    decreases len,
{
    if len > 0 {
        lemma_paint_preserves_building(m, x, y, BrickType::Wall);
        let m2 = BoardModel { grid: BoardModel::grid_with(m.grid, x, y, BrickType::Wall), ..m };
        let (nx, ny) = Position::spec_move(x, y, dir);
        lemma_apply_wall_building(m2, nx, ny, (len - 1) as nat, dir);
    }
}

/// A successful snake run keeps the under-construction state; it extends
/// the queue, paints the grid, and sets both headings to its direction.
proof fn lemma_apply_snake_building(m: BoardModel, x: int, y: int, len: nat, dir: Direction)
    requires
        building(m),
        spec_apply_snake(m, x, y, len, dir) is Some,
    ensures
        ({
            let m2 = spec_apply_snake(m, x, y, len, dir).unwrap();
            building(m2) && m2 == (BoardModel {
                grid: m2.grid,
                snake: m2.snake,
                facing: dir,
                last_step: dir,
                ..m
            })
        }),
    decreases len,
{
    if len == 0 {
        let m2 = BoardModel { facing: dir, last_step: dir, ..m };
        assert forall|a: int, c: int| m2.in_bounds(a, c) implies #[trigger] m2.cell(a, c)
            == m.cell(a, c) by {}
        assert forall|k: int| 1 <= k < m2.snake.len() implies m2.cell_at(
            #[trigger] m2.snake[k],
        ) is Snake by {
            let p = m.snake[k];
            assert(m2.cell(p.0 as int, p.1 as int) == m.cell(p.0 as int, p.1 as int));
        }
    } else {
        lemma_snake_paint_preserves_building(m, x, y, dir);
        let m2 = BoardModel {
            grid: BoardModel::grid_with(m.grid, x, y, BrickType::Snake(dir)),
            snake: seq![Position(x as usize, y as usize)] + m.snake,
            ..m
        };
        let (nx, ny) = Position::spec_move(x, y, dir);
        lemma_apply_snake_building(m2, nx, ny, (len - 1) as nat, dir);
    }
}

/// A successful portal run keeps the under-construction state and changes
/// only the grid.
proof fn lemma_apply_portal_building(
    m: BoardModel,
    sx: int,
    sy: int,
    dx: int,
    dy: int,
    len: nat,
    sdir: Direction,
    ddir: Direction,
    out_rot: u8,
    colour: i16,
)
    requires
        building(m),
        spec_apply_portal(m, sx, sy, dx, dy, len, sdir, ddir, out_rot, colour) is Some,
    ensures
        ({
            let m2 = spec_apply_portal(m, sx, sy, dx, dy, len, sdir, ddir, out_rot, colour).unwrap();
            building(m2) && m2 == (BoardModel { grid: m2.grid, ..m })
        }),
    decreases len,
{
    if len > 0 {
        let pd = PortalData {
            destination: Position(dx as usize, dy as usize),
            colour,
            rotation: out_rot,
        };
        lemma_paint_preserves_building(m, sx, sy, BrickType::Portal(pd));
        let m2 = BoardModel {
            grid: BoardModel::grid_with(m.grid, sx, sy, BrickType::Portal(pd)),
            ..m
        };
        let (nsx, nsy) = Position::spec_move(sx, sy, sdir);
        let (ndx, ndy) = Position::spec_move(dx, dy, ddir);
        lemma_apply_portal_building(
            m2,
            nsx,
            nsy,
            ndx,
            ndy,
            (len - 1) as nat,
            sdir,
            ddir,
            out_rot,
            colour,
        );
    }
}

/// One directive line applied to a board under construction: a blank line
/// or an unrecognized leading token changes nothing, the single-character
/// tags `W` (byte 87), `S` (83) and `P` (80) paint their runs, and a
/// recognized directive with malformed fields yields `None`.
pub open spec fn spec_add_bar(m: BoardModel, line: Seq<u8>) -> Option<BoardModel> {
    let toks = spec_tokens(line);
    if toks.len() == 0 || toks[0].len() != 1 {
        Some(m)
    } else if toks[0][0] == 87 {
        match spec_wall_bar(toks.skip(1)) {
            None => None,
            Some(bar) => spec_apply_wall(
                m,
                bar.base.pos.0 as int,
                bar.base.pos.1 as int,
                bar.base.len as nat,
                bar.base.dir,
            ),
        }
    } else if toks[0][0] == 83 {
        match spec_snake_bar(toks.skip(1)) {
            None => None,
            Some(bar) => spec_apply_snake(
                m,
                bar.base.pos.0 as int,
                bar.base.pos.1 as int,
                bar.base.len as nat,
                bar.base.dir,
            ),
        }
    } else if toks[0][0] == 80 {
        match spec_portal_bar(toks.skip(1)) {
            None => None,
            Some(bar) => spec_apply_portal(
                m,
                bar.base.pos.0 as int,
                bar.base.pos.1 as int,
                bar.destination.0 as int,
                bar.destination.1 as int,
                bar.base.len as nat,
                bar.base.dir,
                bar.dest_dir(),
                bar.out_rotation(),
                bar.colour,
            ),
        }
    } else {
        Some(m)
    }
}

/// A successful directive keeps the under-construction state.
proof fn lemma_add_bar_building(m: BoardModel, line: Seq<u8>)
    requires
        building(m),
        spec_add_bar(m, line) is Some,
    ensures
        building(spec_add_bar(m, line).unwrap()),
{
    let toks = spec_tokens(line);
    if toks.len() == 0 {
    } else if toks[0].len() != 1 {
    } else if toks[0][0] == 87 {
        let bar = spec_wall_bar(toks.skip(1)).unwrap();
        lemma_apply_wall_building(
            m,
            bar.base.pos.0 as int,
            bar.base.pos.1 as int,
            bar.base.len as nat,
            bar.base.dir,
        );
    } else if toks[0][0] == 83 {
        let bar = spec_snake_bar(toks.skip(1)).unwrap();
        lemma_apply_snake_building(
            m,
            bar.base.pos.0 as int,
            bar.base.pos.1 as int,
            bar.base.len as nat,
            bar.base.dir,
        );
    } else if toks[0][0] == 80 {
        let bar = spec_portal_bar(toks.skip(1)).unwrap();
        lemma_apply_portal_building(
            m,
            bar.base.pos.0 as int,
            bar.base.pos.1 as int,
            bar.destination.0 as int,
            bar.destination.1 as int,
            bar.base.len as nat,
            bar.base.dir,
            bar.dest_dir(),
            bar.out_rotation(),
            bar.colour,
        );
    }
}

/// A fresh board model of the given dimensions with every cell empty.
pub open spec fn spec_empty_model(xs: int, ys: int) -> BoardModel {
    BoardModel {
        x_size: xs as nat,
        y_size: ys as nat,
        grid: Seq::new(xs as nat, |i: int| Seq::new(ys as nat, |j: int| BrickType::Empty)),
        snake: Seq::empty(),
        facing: Direction::Up,
        last_step: Direction::Up,
        head: Position(0, 0),
        initial_size: 0,
    }
}

/// The header line: two positive bounded decimal numbers, the board's
/// dimensions. Extra tokens are ignored.
pub open spec fn spec_parse_header(line: Seq<u8>) -> Option<(int, int)> {
    let toks = spec_tokens(line);
    if toks.len() < 2 {
        None
    } else {
        let x = spec_parse_bounded(toks[0], usize::MAX as int);
        let y = spec_parse_bounded(toks[1], usize::MAX as int);
        if x is Some && y is Some && x.unwrap() >= 1 && y.unwrap() >= 1 {
            Some((x.unwrap(), y.unwrap()))
        } else {
            None
        }
    }
}

/// The directive lines from index `i` on, applied in order; `None` as soon
/// as one fails.
pub open spec fn spec_load_bars(m: BoardModel, lines: Seq<Seq<u8>>, i: int) -> Option<BoardModel>
    decreases lines.len() - i,
{
    if i < 0 || i >= lines.len() {
        Some(m)
    } else {
        match spec_add_bar(m, lines[i]) {
            None => None,
            Some(m2) => spec_load_bars(m2, lines, i + 1),
        }
    }
}

/// The board model described by a whole file, before the head marker and
/// food are placed: a header line, then directives.
pub open spec fn spec_load(lines: Seq<Seq<u8>>) -> Option<BoardModel> {
    if lines.len() == 0 {
        None
    } else {
        match spec_parse_header(lines[0]) {
            None => None,
            Some((xs, ys)) => spec_load_bars(spec_empty_model(xs, ys), lines, 1),
        }
    }
}

/// The loaded model finished off: when a snake was laid, its front cell
/// becomes the head marker with the recorded facing, the cached head is
/// synced, and the queue's length becomes the score baseline.
pub open spec fn spec_build_base(m: BoardModel) -> BoardModel {
    if m.snake.len() == 0 {
        m
    } else {
        BoardModel {
            head: m.snake[0],
            grid: BoardModel::grid_with(
                m.grid,
                m.snake[0].0 as int,
                m.snake[0].1 as int,
                BrickType::SnakeHead(m.facing),
            ),
            initial_size: m.snake.len(),
            ..m
        }
    }
}

/// Accumulates directive applications on a board being built.
struct BoardBuilder {
    board: Board,
}

impl BoardBuilder {
    fn new(x_size: usize, y_size: usize) -> (r: BoardBuilder)
        ensures
            r.board@ == spec_empty_model(x_size as int, y_size as int),
            building(r.board@),
    {
        let board = Board::new_empty(x_size, y_size);
        proof {
            assert forall|i: int, j: int|
                0 <= i < x_size && 0 <= j < y_size implies #[trigger] board@.grid[i][j]
                == BrickType::Empty by {
                assert(board@.cell(i, j) == BrickType::Empty);
            }
            assert(board@.grid =~~= spec_empty_model(x_size as int, y_size as int).grid);
            assert(board@ =~~= spec_empty_model(x_size as int, y_size as int));
        }
        BoardBuilder { board }
    }

    /// Apply one directive line; `false` when it is malformed or paints
    /// outside the grid or over the snake.
    fn add_bar(&mut self, line: &Vec<u8>) -> (ok: bool)
        requires
            old(self).board@.grid_shaped(),
        ensures
            final(self).board@.grid_shaped(),
            ok == (spec_add_bar(old(self).board@, line@) is Some),
            ok ==> Some(final(self).board@) == spec_add_bar(old(self).board@, line@),
    {
        let toks = split_tokens(line);
        let ghost stoks = spec_tokens(line@);
        if toks.len() == 0 {
            return true;
        }
        proof {
            assert(stoks[0] == toks@[0]@);
            assert(toks.deep_view().skip(1) =~~= stoks.skip(1));
        }
        if toks[0].len() != 1 {
            return true;
        }
        let tag = toks[0][0];
        if tag == 87 {
            match WallBar::from_line(&toks, 1) {
                Option::Some(bar) => bar.apply(&mut self.board),
                Option::None => false,
            }
        } else if tag == 83 {
            match SnakeBar::from_line(&toks, 1) {
                Option::Some(bar) => bar.apply(&mut self.board),
                Option::None => false,
            }
        } else if tag == 80 {
            match PortalBar::from_line(&toks, 1) {
                Option::Some(bar) => bar.apply(&mut self.board),
                Option::None => false,
            }
        } else {
            true
        }
    }

    /// Finish the board: mark the head, fix the score baseline, and place
    /// one food item at a random empty cell. `None` when no empty cell is
    /// left for the food.
    fn build(self) -> (r: Option<Board>)
        requires
            building(self.board@),
        ensures
            ({
                let base = spec_build_base(self.board@);
                match r {
                    Some(b) => {
                        &&& b.wf()
                        &&& exists|fp: Position|
                            {
                                &&& #[trigger] base.pos_in_bounds(fp)
                                &&& base.cell_at(fp) is Empty
                                &&& b@ == (BoardModel {
                                    grid: BoardModel::grid_with(
                                        base.grid,
                                        fp.0 as int,
                                        fp.1 as int,
                                        BrickType::Food,
                                    ),
                                    ..base
                                })
                            }
                    },
                    None => base.no_empty(),
                }
            }),
    {
        let ghost m0 = self.board@;
        let ghost base = spec_build_base(self.board@);
        let mut board = self.board;
        if board.snake_len() > 0 {
            let head = board.snake_segment(0);
            let facing = board.facing();
            board.set_head_cache(head);
            board.change_brick(head, BrickType::SnakeHead(facing));
            let n = board.snake_len();
            board.set_initial_size(n);
            proof {
                assert(m0.pos_in_bounds(m0.snake[0]));
                assert(board@ =~~= base);
            }
        }
        proof {
            assert(board@ == base);
            // the finished base is well-formed except for the missing food
            assert forall|a: int, c: int| base.in_bounds(a, c) implies #[trigger] base.cell(a, c)
                == (if m0.snake.len() > 0 && a == m0.snake[0].0 as int && c == m0.snake[0].1 as int {
                BrickType::SnakeHead(m0.facing)
            } else {
                m0.cell(a, c)
            }) by {}
            assert forall|a: int, c: int| base.in_bounds(a, c) implies (BoardModel::is_snake_brick(
                #[trigger] base.cell(a, c),
            ) <==> base.snake.contains(Position(a as usize, c as usize))) by {
                if m0.snake.len() > 0 && a == m0.snake[0].0 as int && c == m0.snake[0].1 as int {
                    assert(Position(a as usize, c as usize) == m0.snake[0]);
                    assert(base.snake.contains(m0.snake[0]));
                } else {
                    assert(base.cell(a, c) == m0.cell(a, c));
                }
            }
            assert forall|k: int| 1 <= k < base.snake.len() implies base.cell_at(
                #[trigger] base.snake[k],
            ) is Snake by {
                let p = m0.snake[k];
                assert(m0.snake.contains(p));
                assert(BoardModel::is_snake_brick(m0.cell(p.0 as int, p.1 as int)));
                assert(!(m0.cell(p.0 as int, p.1 as int) is SnakeHead));
                assert(p != m0.snake[0]);
                assert(base.cell(p.0 as int, p.1 as int) == m0.cell(p.0 as int, p.1 as int));
            }
        }
        let pos = board.find_valid_food_spawn();
        match pos {
            Option::Some(p) => {
                proof {
                    assert(!base.snake.contains(p)) by {
                        if base.snake.contains(p) {
                            assert(BoardModel::is_snake_brick(base.cell(p.0 as int, p.1 as int)));
                        }
                    }
                }
                board.change_brick(p, BrickType::Food);
                proof {
                    let m3 = board@;
                    assert forall|a: int, c: int| m3.in_bounds(a, c) implies (
                    BoardModel::is_snake_brick(#[trigger] m3.cell(a, c)) <==> m3.snake.contains(
                        Position(a as usize, c as usize),
                    )) by {
                        if !(a == p.0 && c == p.1) {
                            assert(m3.cell(a, c) == base.cell(a, c));
                        } else {
                            assert(Position(a as usize, c as usize) == p);
                        }
                    }
                    assert forall|k: int| 1 <= k < m3.snake.len() implies m3.cell_at(
                        #[trigger] m3.snake[k],
                    ) is Snake by {
                        let q = m3.snake[k];
                        assert(base.cell_at(q) is Snake);
                        assert(m3.cell(q.0 as int, q.1 as int) == base.cell(q.0 as int, q.1 as int));
                    }
                    assert forall|x1: int, y1: int, x2: int, y2: int|
                        m3.in_bounds(x1, y1) && m3.in_bounds(x2, y2) && #[trigger] m3.cell(
                            x1,
                            y1,
                        ) is Food && #[trigger] m3.cell(x2, y2) is Food implies x1 == x2 && y1
                        == y2 by {
                        if !(x1 == p.0 && y1 == p.1) {
                            assert(m3.cell(x1, y1) == base.cell(x1, y1));
                        }
                        if !(x2 == p.0 && y2 == p.1) {
                            assert(m3.cell(x2, y2) == base.cell(x2, y2));
                        }
                    }
                    if m3.snake.len() > 0 {
                        assert(m3.cell_at(m3.head) == BrickType::SnakeHead(m3.facing)) by {
                            assert(base.cell_at(base.head) == BrickType::SnakeHead(base.facing));
                            assert(m3.cell(base.head.0 as int, base.head.1 as int) == base.cell(
                                base.head.0 as int,
                                base.head.1 as int,
                            ));
                        }
                    }
                    assert(board.wf());
                }
                Option::Some(board)
            },
            Option::None => Option::None,
        }
    }
}

/// Build a board from the lines of a board file: a header giving the
/// dimensions, then `W`, `S` and `P` directives. `None` when the header or
/// a directive is malformed, a directive paints outside the grid or over
/// the snake, or no empty cell is left for the food.
pub fn from_lines(lines: &Vec<Vec<u8>>) -> (r: Option<Board>)
    ensures
        match spec_load(lines.deep_view()) {
            None => r is None,
            Some(m) => {
                let base = spec_build_base(m);
                match r {
                    Some(b) => {
                        &&& b.wf()
                        &&& exists|fp: Position|
                            {
                                &&& #[trigger] base.pos_in_bounds(fp)
                                &&& base.cell_at(fp) is Empty
                                &&& b@ == (BoardModel {
                                    grid: BoardModel::grid_with(
                                        base.grid,
                                        fp.0 as int,
                                        fp.1 as int,
                                        BrickType::Food,
                                    ),
                                    ..base
                                })
                            }
                    },
                    None => base.no_empty(),
                }
            },
        },
{
    let ghost slines = lines.deep_view();
    if lines.len() == 0 {
        return Option::None;
    }
    let toks = split_tokens(&lines[0]);
    proof {
        assert(slines[0] == lines@[0]@);
    }
    if toks.len() < 2 {
        return Option::None;
    }
    proof {
        assert(toks.deep_view()[0] == toks@[0]@);
        assert(toks.deep_view()[1] == toks@[1]@);
    }
    let x = parse_bounded(&toks[0], usize::MAX);
    let y = parse_bounded(&toks[1], usize::MAX);
    let (xs, ys) = match (x, y) {
        (Option::Some(x), Option::Some(y)) => {
            if x >= 1 && y >= 1 {
                (x, y)
            } else {
                return Option::None;
            }
        },
        _ => {
            return Option::None;
        },
    };
    let ghost m0 = spec_empty_model(xs as int, ys as int);
    proof {
        assert(spec_parse_header(slines[0]) == Some((xs as int, ys as int)));
        assert(spec_load(slines) == spec_load_bars(m0, slines, 1));
    }
    let mut builder = BoardBuilder::new(xs, ys);
    let mut i: usize = 1;
    while i < lines.len()
        invariant
            1 <= i <= lines@.len(),
            slines == lines.deep_view(),
            building(builder.board@),
            spec_load_bars(builder.board@, slines, i as int) == spec_load_bars(m0, slines, 1),
            spec_load(slines) == spec_load_bars(m0, slines, 1),
        decreases lines@.len() - i,
    {
        let ghost before = builder.board@;
        let ok = builder.add_bar(&lines[i]);
        proof {
            assert(slines[i as int] == lines@[i as int]@);
        }
        if !ok {
            proof {
                assert(spec_load_bars(before, slines, i as int) is None);
            }
            return Option::None;
        }
        proof {
            lemma_add_bar_building(before, slines[i as int]);
            assert(spec_load_bars(builder.board@, slines, i + 1) == spec_load_bars(
                before,
                slines,
                i as int,
            ));
        }
        i += 1;
    }
    proof {
        assert(spec_load_bars(builder.board@, slines, i as int) == Some(builder.board@));
        assert(spec_load(slines) == Some(builder.board@));
    }
    builder.build()
}

} // verus!
