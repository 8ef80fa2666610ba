//! The single-worker position of the greedy solver: a grid of cells that the
//! worker and its manipulators wrap, with moves that can be applied and taken
//! back.
use vstd::prelude::*;
use crate::grid::{idx, in_grid, lemma_index, lemma_quot_le, REACH};
use crate::route::{covers, explore, found_entries, found_ok, nearest, no_boost, searched, walk_to, Entry, Field};
use crate::desc::{desc_of, parse_desc, DescError};
use crate::layout::{booster_code, laid, layout, layout_spec, playable, Grid};

verus! {

#[derive(Clone, Copy, PartialEq, Eq, Structural, Debug)]
pub enum Cell {
    Wall,
    Empty,
    Wrapped,
    B,
    F,
    L,
    X,
    R,
    C,
}

#[derive(Clone, Copy, PartialEq, Eq, Structural, Debug)]
pub struct Point {
    pub x: i32,
    pub y: i32,
}

#[derive(Clone, Copy, PartialEq, Eq, Structural, Debug)]
pub enum Move {
    W,
    A,
    S,
    D,
    Clockwize,
    Anticlockwise,
    B(i32, i32),
    F,
    L,
    R,
    T(i32, i32),
}

pub struct Position {
    pub body: Point,
    pub map: Vec<Cell>,
    pub direction: i32,
    pub width: i32,
    pub height: i32,
    pub manipulators: Vec<Point>,
    pub rest_b: i32,
    pub rest_f: i32,
    pub rest_l: i32,
    pub fast: i32,
    pub drill: i32,
}

/// The moves that walk a route.
pub struct Target {
    pub moves: std::collections::VecDeque<Move>,
}

/// The cells that a move wrapped, in the order it wrapped them.
pub struct MoveResult {
    pub wrapped: Vec<Point>,
}

/// The abstract value of a position.
pub struct PositionModel {
    pub body: Point,
    pub map: Seq<Cell>,
    pub direction: i32,
    pub width: i32,
    pub height: i32,
    pub manipulators: Seq<Point>,
    pub rest_b: i32,
    pub rest_f: i32,
    pub rest_l: i32,
    pub fast: i32,
    pub drill: i32,
}

impl View for Position {
    type V = PositionModel;

    open spec fn view(&self) -> PositionModel {
        PositionModel {
            body: self.body,
            map: self.map@,
            direction: self.direction,
            width: self.width,
            height: self.height,
            manipulators: self.manipulators@,
            rest_b: self.rest_b,
            rest_f: self.rest_f,
            rest_l: self.rest_l,
            fast: self.fast,
            drill: self.drill,
        }
    }
}

/// A manipulator offset within reach of its worker.
pub open spec fn small(p: Point) -> bool {
    -REACH <= p.x <= REACH && -REACH <= p.y <= REACH
}

/// The grid has a size whose indices fit in 32 bits.
pub open spec fn grid_ok(width: int, height: int, len: int) -> bool {
    &&& 0 < width
    &&& 0 < height
    &&& width * height <= i32::MAX
    &&& width + REACH <= i32::MAX
    &&& height + REACH <= i32::MAX
    &&& len == width * height
}

pub open spec fn cell_at(map: Seq<Cell>, x: int, y: int, width: int) -> Cell {
    map[idx(x, y, width)]
}

/// A manipulator offset turned by `direction` quarter turns.
pub open spec fn rotated(p: Point, direction: int) -> (int, int) {
    if direction == 0 {
        (p.x as int, p.y as int)
    } else if direction == 1 {
        (-p.y, p.x as int)
    } else if direction == 2 {
        (-p.x, -p.y)
    } else {
        (p.y as int, -p.x)
    }
}

pub open spec fn abs_int(v: int) -> int {
    if v < 0 {
        -v
    } else {
        v
    }
}

/// The column at which the segment from column `x0` to `x0 + diff`, over
/// `den / 2` rows, crosses the boundary `k / den` of a row, when that column
/// is a whole number.
pub open spec fn crossing_col(x0: int, diff: int, k: int, den: int) -> int {
    let n = k * diff;
    if n >= 0 {
        x0 + n / den
    } else {
        x0 - (-n) / den
    }
}

pub open spec fn crossing_whole(diff: int, k: int, den: int) -> bool {
    abs_int(k * diff) % den == 0
}

/// At the boundary between rows `y0 + iy` and `y0 + iy + 1` the segment passes
/// a grid corner that touches a wall above or below it.
pub open spec fn crossing_blocked(map: Seq<Cell>, width: int, x0: int, y0: int, x1: int, dy: int, iy: int) -> bool {
    let k = 2 * iy + 1;
    let den = 2 * dy;
    &&& crossing_whole(x1 - x0, k, den)
    &&& (cell_at(map, crossing_col(x0, x1 - x0, k, den), y0 + iy, width) == Cell::Wall || cell_at(
        map,
        crossing_col(x0, x1 - x0, k, den),
        y0 + iy + 1,
        width,
    ) == Cell::Wall)
}

/// Whether a manipulator at `(tx, ty)` is in sight of the worker at
/// `(bx, by)`: a segment that is steeper than diagonal must pass no grid
/// corner that touches a wall; other segments are always in sight.
pub open spec fn reachable(map: Seq<Cell>, width: int, bx: int, by: int, tx: int, ty: int) -> bool {
    let dx = abs_int(tx - bx);
    let dy = abs_int(ty - by);
    if dx < dy {
        let x0 = if by < ty { bx } else { tx };
        let y0 = if by < ty { by } else { ty };
        let x1 = if by < ty { tx } else { bx };
        segment_clear(map, width, x0, y0, x1, dy)
    } else {
        true
    }
}

/// No row boundary of the segment from `(x0, y0)` to `(x1, y0 + dy)` is
/// blocked.
pub open spec fn segment_clear(map: Seq<Cell>, width: int, x0: int, y0: int, x1: int, dy: int) -> bool {
    forall|iy: int| 0 <= iy < dy ==> !#[trigger] crossing_blocked(map, width, x0, y0, x1, dy, iy)
}

/// The cells that the manipulators `ms` would wrap, in order: those inside
/// the grid and in sight of the worker.
pub open spec fn manip_cands(
    map: Seq<Cell>,
    width: int,
    height: int,
    body: Point,
    direction: int,
    ms: Seq<Point>,
) -> Seq<(int, int)>
    decreases ms.len(),
{
    if ms.len() == 0 {
        seq![]
    } else {
        let rest = manip_cands(map, width, height, body, direction, ms.drop_last());
        let r = rotated(ms.last(), direction);
        let t = (body.x + r.0, body.y + r.1);
        if in_grid(t.0, t.1, width, height) && reachable(map, width, body.x as int, body.y as int, t.0, t.1) {
            rest.push(t)
        } else {
            rest
        }
    }
}

/// Wraps the empty cells among `cs` in order; gives the new map and the cells
/// wrapped.
pub open spec fn wrap_fold(map: Seq<Cell>, width: int, cs: Seq<(int, int)>) -> (Seq<Cell>, Seq<Point>)
    decreases cs.len(),
{
    if cs.len() == 0 {
        (map, seq![])
    } else {
        let prev = wrap_fold(map, width, cs.drop_last());
        let c = cs.last();
        if prev.0[idx(c.0, c.1, width)] == Cell::Empty {
            (
                prev.0.update(idx(c.0, c.1, width), Cell::Wrapped),
                prev.1.push(Point { x: c.0 as i32, y: c.1 as i32 }),
            )
        } else {
            prev
        }
    }
}

/// Sets each of the cells `ws` back to empty.
pub open spec fn unwrap_fold(map: Seq<Cell>, width: int, ws: Seq<Point>) -> Seq<Cell>
    decreases ws.len(),
{
    if ws.len() == 0 {
        map
    } else {
        let prev = unwrap_fold(map, width, ws.drop_last());
        prev.update(idx(ws.last().x as int, ws.last().y as int, width), Cell::Empty)
    }
}

/// The number of cells equal to `c`.
pub open spec fn count_cell(map: Seq<Cell>, c: Cell) -> nat
    decreases map.len(),
{
    if map.len() == 0 {
        0
    } else {
        count_cell(map.drop_last(), c) + if map.last() == c {
            1nat
        } else {
            0nat
        }
    }
}

pub open spec fn is_step_move(mo: Move) -> bool {
    mo is W || mo is A || mo is S || mo is D || mo is Clockwize || mo is Anticlockwise
}

impl PositionModel {
    pub open spec fn wf(&self) -> bool {
        &&& grid_ok(self.width as int, self.height as int, self.map.len() as int)
        &&& 0 <= self.direction < 4
        &&& in_grid(self.body.x as int, self.body.y as int, self.width as int, self.height as int)
        &&& forall|i: int| 0 <= i < self.manipulators.len() ==> small(#[trigger] self.manipulators[i])
    }

    /// Whether `(x, y)` is outside the grid or a wall.
    pub open spec fn is_out(&self, x: int, y: int) -> bool {
        x < 0 || self.width <= x || y < 0 || self.height <= y || cell_at(self.map, x, y, self.width as int)
            == Cell::Wall
    }

    /// The cells that wrapping considers: the worker's, then those of the
    /// manipulators in sight.
    pub open spec fn wrap_cands(&self) -> Seq<(int, int)> {
        seq![(self.body.x as int, self.body.y as int)] + manip_cands(
            self.map,
            self.width as int,
            self.height as int,
            self.body,
            self.direction as int,
            self.manipulators,
        )
    }

    /// The position after wrapping, and the cells wrapped.
    pub open spec fn wrapped(&self) -> (PositionModel, Seq<Point>) {
        let f = wrap_fold(self.map, self.width as int, self.wrap_cands());
        (PositionModel { map: f.0, ..*self }, f.1)
    }

    /// The worker moved by `(dx, dy)`.
    pub open spec fn moved(&self, dx: int, dy: int) -> PositionModel {
        PositionModel { body: Point { x: (self.body.x + dx) as i32, y: (self.body.y + dy) as i32 }, ..*self }
    }

    /// The worker turned to `direction`.
    pub open spec fn turned(&self, direction: int) -> PositionModel {
        PositionModel { direction: direction as i32, ..*self }
    }
}

/// The step of a walking move.
pub open spec fn step_of(mo: Move) -> (int, int) {
    match mo {
        Move::W => (0, -1),
        Move::A => (-1, 0),
        Move::S => (0, 1),
        Move::D => (1, 0),
        _ => (0, 0),
    }
}

/// What a move does: `None` where a walk would leave the grid or enter a
/// wall, else the new position and the cells wrapped.
pub open spec fn apply_spec(p: PositionModel, mo: Move) -> Option<(PositionModel, Seq<Point>)> {
    match mo {
        Move::Clockwize => Some(p.turned((p.direction + 1) % 4).wrapped()),
        Move::Anticlockwise => Some(p.turned((p.direction + 3) % 4).wrapped()),
        _ => {
            let s = step_of(mo);
            if p.is_out(p.body.x + s.0, p.body.y + s.1) {
                None
            } else {
                Some(p.moved(s.0, s.1).wrapped())
            }
        },
    }
}

/// Taking a move back: the worker steps or turns back and the cells wrapped
/// are empty again.
pub open spec fn back_spec(p: PositionModel, mo: Move, wrapped: Seq<Point>) -> PositionModel {
    let q = match mo {
        Move::Clockwize => p.turned((p.direction + 3) % 4),
        Move::Anticlockwise => p.turned((p.direction + 1) % 4),
        _ => {
            let s = step_of(mo);
            p.moved(-s.0, -s.1)
        },
    };
    PositionModel { map: unwrap_fold(q.map, q.width as int, wrapped), ..q }
}

/// Two maps of one size with walls at the same cells.
pub open spec fn same_walls(m1: Seq<Cell>, m2: Seq<Cell>) -> bool {
    &&& m1.len() == m2.len()
    &&& forall|i: int| 0 <= i < m1.len() ==> (#[trigger] m1[i] == Cell::Wall <==> m2[i] == Cell::Wall)
}

/// Some cell of `ws` has index `i`.
pub open spec fn hits(ws: Seq<Point>, width: int, i: int) -> bool {
    exists|k: int| 0 <= k < ws.len() && idx(ws[k].x as int, ws[k].y as int, width) == i
}

/// Every cell of `cs` lies in the grid.
pub open spec fn all_in_grid(cs: Seq<(int, int)>, width: int, height: int) -> bool {
    forall|k: int| 0 <= k < cs.len() ==> in_grid(#[trigger] cs[k].0, cs[k].1, width, height)
}

/// Every point of `ws` lies in the grid.
pub open spec fn points_in_grid(ws: Seq<Point>, width: int, height: int) -> bool {
    forall|k: int| 0 <= k < ws.len() ==> in_grid(#[trigger] ws[k].x as int, ws[k].y as int, width, height)
}

/// The crossing column lies between the two end columns.
proof fn lemma_crossing_col_bounds(x0: int, x1: int, k: int, den: int)
    requires
        0 < k < den,
    ensures
        x0 <= x1 ==> x0 <= crossing_col(x0, x1 - x0, k, den) <= x1,
        x1 < x0 ==> x1 <= crossing_col(x0, x1 - x0, k, den) <= x0,
{
    let d = x1 - x0;
    if d >= 0 {
        assert(k * d >= 0) by (nonlinear_arith)
            requires
                k > 0,
                d >= 0,
        ;
        lemma_quot_le(k, d, den);
    } else {
        assert(k * d < 0 && -(k * d) == k * (-d)) by (nonlinear_arith)
            requires
                k > 0,
                d < 0,
        ;
        lemma_quot_le(k, -d, den);
    }
}

proof fn lemma_reachable_same_walls(m1: Seq<Cell>, m2: Seq<Cell>, width: int, height: int, bx: int, by: int, tx: int, ty: int)
    requires
        same_walls(m1, m2),
        grid_ok(width, height, m1.len() as int),
        in_grid(bx, by, width, height),
        in_grid(tx, ty, width, height),
    ensures
        reachable(m1, width, bx, by, tx, ty) == reachable(m2, width, bx, by, tx, ty),
{
    let dx = abs_int(tx - bx);
    let dy = abs_int(ty - by);
    if dx < dy {
        let x0 = if by < ty { bx } else { tx };
        let y0 = if by < ty { by } else { ty };
        let x1 = if by < ty { tx } else { bx };
        assert forall|iy: int| 0 <= iy < dy implies crossing_blocked(m1, width, x0, y0, x1, dy, iy)
            == crossing_blocked(m2, width, x0, y0, x1, dy, iy) by {
            let k = 2 * iy + 1;
            let den = 2 * dy;
            lemma_crossing_col_bounds(x0, x1, k, den);
            let col = crossing_col(x0, x1 - x0, k, den);
            assert(0 <= col < width);
            lemma_index(col, y0 + iy, width, height);
            lemma_index(col, y0 + iy + 1, width, height);
        }
        assert(segment_clear(m1, width, x0, y0, x1, dy) == segment_clear(m2, width, x0, y0, x1, dy));
    }
}

proof fn lemma_manip_cands_same_walls(m1: Seq<Cell>, m2: Seq<Cell>, width: int, height: int, body: Point, direction: int, ms: Seq<Point>)
    requires
        same_walls(m1, m2),
        grid_ok(width, height, m1.len() as int),
        in_grid(body.x as int, body.y as int, width, height),
    ensures
        manip_cands(m1, width, height, body, direction, ms) == manip_cands(m2, width, height, body, direction, ms),
        all_in_grid(manip_cands(m1, width, height, body, direction, ms), width, height),
    decreases ms.len(),
{
    if ms.len() > 0 {
        lemma_manip_cands_same_walls(m1, m2, width, height, body, direction, ms.drop_last());
        let r = rotated(ms.last(), direction);
        let t = (body.x + r.0, body.y + r.1);
        if in_grid(t.0, t.1, width, height) {
            lemma_reachable_same_walls(m1, m2, width, height, body.x as int, body.y as int, t.0, t.1);
        }
    }
}

/// Wrapping turns empty cells into wrapped ones and nothing else: each cell
/// it names was empty, and every other cell keeps its value.
proof fn lemma_wrap_fold(map: Seq<Cell>, width: int, height: int, cs: Seq<(int, int)>)
    requires
        grid_ok(width, height, map.len() as int),
        all_in_grid(cs, width, height),
    ensures
        wrap_fold(map, width, cs).0.len() == map.len(),
        same_walls(map, wrap_fold(map, width, cs).0),
        points_in_grid(wrap_fold(map, width, cs).1, width, height),
        forall|i: int| 0 <= i < map.len() ==> #[trigger] wrap_fold(map, width, cs).0[i] == if hits(
            wrap_fold(map, width, cs).1,
            width,
            i,
        ) {
            Cell::Wrapped
        } else {
            map[i]
        },
        forall|k: int| 0 <= k < wrap_fold(map, width, cs).1.len() ==> map[idx(
            #[trigger] wrap_fold(map, width, cs).1[k].x as int,
            wrap_fold(map, width, cs).1[k].y as int,
            width,
        )] == Cell::Empty,
    decreases cs.len(),
{
    if cs.len() > 0 {
        let rest = cs.drop_last();
        assert(all_in_grid(rest, width, height)) by {
            assert forall|k: int| 0 <= k < rest.len() implies in_grid(#[trigger] rest[k].0, rest[k].1, width, height) by {
                assert(rest[k] == cs[k]);
            }
        }
        lemma_wrap_fold(map, width, height, rest);
        let prev = wrap_fold(map, width, rest);
        let c = cs.last();
        assert(in_grid(c.0, c.1, width, height)) by {
            assert(cs[cs.len() - 1] == c);
        }
        lemma_index(c.0, c.1, width, height);
        let j = idx(c.0, c.1, width);
        if prev.0[j] == Cell::Empty {
            let p = Point { x: c.0 as i32, y: c.1 as i32 };
            let ws = prev.1.push(p);
            let m = prev.0.update(j, Cell::Wrapped);
            assert(idx(p.x as int, p.y as int, width) == j);
            assert(!hits(prev.1, width, j));
            assert forall|i: int| 0 <= i < map.len() implies #[trigger] m[i] == if hits(ws, width, i) {
                Cell::Wrapped
            } else {
                map[i]
            } by {
                if i == j {
                    assert(ws[ws.len() - 1] == p);
                } else {
                    if hits(ws, width, i) {
                        let k = choose|k: int| 0 <= k < ws.len() && idx(ws[k].x as int, ws[k].y as int, width) == i;
                        assert(k < prev.1.len());
                        assert(ws[k] == prev.1[k]);
                    }
                    if hits(prev.1, width, i) {
                        let k = choose|k: int| 0 <= k < prev.1.len() && idx(prev.1[k].x as int, prev.1[k].y as int, width) == i;
                        assert(ws[k] == prev.1[k]);
                    }
                }
            }
            assert forall|k: int| 0 <= k < ws.len() implies map[idx(#[trigger] ws[k].x as int, ws[k].y as int, width)]
                == Cell::Empty by {
                if k < prev.1.len() {
                    assert(ws[k] == prev.1[k]);
                } else {
                    assert(ws[k] == p);
                }
            }
            assert forall|k: int| 0 <= k < ws.len() implies in_grid(#[trigger] ws[k].x as int, ws[k].y as int, width, height) by {
                if k < prev.1.len() {
                    assert(ws[k] == prev.1[k]);
                } else {
                    assert(ws[k] == p);
                }
            }
        }
    }
}

/// Emptying the cells `ws` sets exactly those cells to empty.
proof fn lemma_unwrap_fold(map: Seq<Cell>, width: int, height: int, ws: Seq<Point>)
    requires
        grid_ok(width, height, map.len() as int),
        points_in_grid(ws, width, height),
    ensures
        unwrap_fold(map, width, ws).len() == map.len(),
        forall|i: int| 0 <= i < map.len() ==> #[trigger] unwrap_fold(map, width, ws)[i] == if hits(ws, width, i) {
            Cell::Empty
        } else {
            map[i]
        },
    decreases ws.len(),
{
    if ws.len() > 0 {
        let rest = ws.drop_last();
        assert(points_in_grid(rest, width, height)) by {
            assert forall|k: int| 0 <= k < rest.len() implies in_grid(#[trigger] rest[k].x as int, rest[k].y as int, width, height) by {
                assert(rest[k] == ws[k]);
            }
        }
        lemma_unwrap_fold(map, width, height, rest);
        let p = ws.last();
        assert(in_grid(p.x as int, p.y as int, width, height)) by {
            assert(ws[ws.len() - 1] == p);
        }
        lemma_index(p.x as int, p.y as int, width, height);
        let j = idx(p.x as int, p.y as int, width);
        assert forall|i: int| 0 <= i < map.len() implies #[trigger] unwrap_fold(map, width, ws)[i] == if hits(ws, width, i) {
            Cell::Empty
        } else {
            map[i]
        } by {
            if i == j {
                assert(ws[ws.len() - 1] == p);
            } else {
                if hits(ws, width, i) {
                    let k = choose|k: int| 0 <= k < ws.len() && idx(ws[k].x as int, ws[k].y as int, width) == i;
                    assert(k < rest.len());
                    assert(ws[k] == rest[k]);
                }
                if hits(rest, width, i) {
                    let k = choose|k: int| 0 <= k < rest.len() && idx(rest[k].x as int, rest[k].y as int, width) == i;
                    assert(ws[k] == rest[k]);
                }
            }
        }
    }
}

/// Emptying the cells that wrapping wrapped gives back the map as it was.
proof fn lemma_unwrap_wrap(map: Seq<Cell>, width: int, height: int, cs: Seq<(int, int)>)
    requires
        grid_ok(width, height, map.len() as int),
        all_in_grid(cs, width, height),
    ensures
        unwrap_fold(wrap_fold(map, width, cs).0, width, wrap_fold(map, width, cs).1) == map,
{
    let f = wrap_fold(map, width, cs);
    lemma_wrap_fold(map, width, height, cs);
    lemma_unwrap_fold(f.0, width, height, f.1);
    let u = unwrap_fold(f.0, width, f.1);
    assert forall|i: int| 0 <= i < map.len() implies u[i] == map[i] by {
        if hits(f.1, width, i) {
            let k = choose|k: int| 0 <= k < f.1.len() && idx(f.1[k].x as int, f.1[k].y as int, width) == i;
            assert(map[idx(f.1[k].x as int, f.1[k].y as int, width)] == Cell::Empty);
        }
    }
    assert(u =~= map);
}

/// The index arithmetic of a cell inside a map of at most `i32::MAX` cells
/// stays within 32 bits.
pub open spec fn index_ok(len: int, x: int, y: int, width: int) -> bool {
    &&& 0 <= x < width
    &&& 0 <= y
    &&& y * width + x < len
    &&& len <= i32::MAX
}

proof fn lemma_index_ok(len: int, x: int, y: int, width: int)
    requires
        index_ok(len, x, y, width),
    ensures
        0 <= y * width <= y * width + x <= i32::MAX,
{
    assert(0 <= y * width) by (nonlinear_arith)
        requires
            0 <= y,
            0 < width,
    ;
}

fn get_at(map: &Vec<Cell>, x: i32, y: i32, width: i32) -> (r: Cell)
    requires
        index_ok(map@.len() as int, x as int, y as int, width as int),
    ensures
        r == cell_at(map@, x as int, y as int, width as int),
{
    proof {
        lemma_index_ok(map@.len() as int, x as int, y as int, width as int);
    }
    map[(y * width + x) as usize]
}

fn set_at(map: &mut Vec<Cell>, x: i32, y: i32, width: i32, cell: Cell)
    requires
        index_ok(old(map)@.len() as int, x as int, y as int, width as int),
    ensures
        final(map)@ == old(map)@.update(idx(x as int, y as int, width as int), cell),
{
    proof {
        lemma_index_ok(map@.len() as int, x as int, y as int, width as int);
    }
    map.set((y * width + x) as usize, cell);
}

/// Wraps the cell at `(x, y)` if it is empty, and says whether it did.
fn wrap_at(map: &mut Vec<Cell>, x: i32, y: i32, width: i32) -> (r: bool)
    requires
        index_ok(old(map)@.len() as int, x as int, y as int, width as int),
    ensures
        r == (cell_at(old(map)@, x as int, y as int, width as int) == Cell::Empty),
        r ==> final(map)@ == old(map)@.update(idx(x as int, y as int, width as int), Cell::Wrapped),
        !r ==> final(map)@ == old(map)@,
{
    if get_at(map, x, y, width) == Cell::Empty {
        set_at(map, x, y, width, Cell::Wrapped);
        true
    } else {
        false
    }
}

proof fn lemma_grid_index_ok(width: int, height: int, len: int, x: int, y: int)
    requires
        grid_ok(width, height, len),
        in_grid(x, y, width, height),
    ensures
        index_ok(len, x, y, width),
{
    lemma_index(x, y, width, height);
}

proof fn lemma_count_cell_push(map: Seq<Cell>, v: Cell, c: Cell)
    ensures
        count_cell(map.push(v), c) == count_cell(map, c) + if v == c {
            1nat
        } else {
            0nat
        },
{
    assert(map.push(v).drop_last() =~= map);
}

impl Position {
    /// The number of empty cells.
    pub fn count_empty(&self) -> (r: i32)
        requires
            self.map@.len() <= i32::MAX,
        ensures
            r == count_cell(self.map@, Cell::Empty),
    {
        let mut count: i32 = 0;
        let n = self.map.len();
        for i in 0..n
            invariant
                n == self.map@.len(),
                n <= i32::MAX,
                count == count_cell(self.map@.take(i as int), Cell::Empty),
                count <= i,
        {
            proof {
                assert(self.map@.take(i + 1) =~= self.map@.take(i as int).push(self.map@[i as int]));
                lemma_count_cell_push(self.map@.take(i as int), self.map@[i as int], Cell::Empty);
            }
            if self.map[i] == Cell::Empty {
                count = count + 1;
            }
        }
        assert(self.map@.take(n as int) =~= self.map@);
        count
    }

    /// Whether `(x, y)` is outside the grid or a wall.
    pub fn is_out(&self, x: i32, y: i32) -> (r: bool)
        requires
            grid_ok(self.width as int, self.height as int, self.map@.len() as int),
        ensures
            r == self@.is_out(x as int, y as int),
    {
        if x < 0 || self.width <= x || y < 0 || self.height <= y {
            return true;
        }
        proof {
            lemma_grid_index_ok(self.width as int, self.height as int, self.map@.len() as int, x as int, y as int);
        }
        get_at(&self.map, x, y, self.width) == Cell::Wall
    }

    fn is_reachable(&self, target_x: i32, target_y: i32, width: i32) -> (r: bool)
        requires
            self@.wf(),
            width == self.width,
            in_grid(target_x as int, target_y as int, self.width as int, self.height as int),
        ensures
            r == reachable(self.map@, self.width as int, self.body.x as int, self.body.y as int, target_x as int, target_y as int),
    {
        let bx = self.body.x;
        let by = self.body.y;
        let dx = if target_x < bx { bx - target_x } else { target_x - bx };
        let dy = if target_y < by { by - target_y } else { target_y - by };
        if dx < dy {
            let x0 = if by < target_y { bx } else { target_x };
            let y0 = if by < target_y { by } else { target_y };
            let x1 = if by < target_y { target_x } else { bx };
            let den: i64 = 2 * (dy as i64);
            let diff: i64 = x1 as i64 - x0 as i64;
            let mut iy: i32 = 0;
            while iy < dy
                invariant
                    self@.wf(),
                    width == self.width,
                    0 <= iy <= dy,
                    0 <= dx < dy,
                    dy == abs_int(target_y - by),
                    dx == abs_int(target_x - bx),
                    abs_int(diff as int) == dx,
                    diff == x1 - x0,
                    den == 2 * dy,
                    bx == self.body.x,
                    by == self.body.y,
                    x0 == (if by < target_y { bx } else { target_x }),
                    y0 == (if by < target_y { by } else { target_y }),
                    x1 == (if by < target_y { target_x } else { bx }),
                    in_grid(x0 as int, y0 as int, self.width as int, self.height as int),
                    in_grid(x1 as int, (y0 + dy) as int, self.width as int, self.height as int),
                    forall|k: int| 0 <= k < iy ==> !#[trigger] crossing_blocked(self.map@, self.width as int, x0 as int, y0 as int, x1 as int, dy as int, k),
                decreases dy - iy,
            {
                let k: i64 = 2 * (iy as i64) + 1;
                assert(-(den * dy) < k * diff < den * dy) by (nonlinear_arith)
                    requires
                        0 < k < den,
                        -dy < diff < dy,
                ;
                assert(den * dy <= 0x7fff_fffe_0000_0002) by (nonlinear_arith)
                    requires
                        den == 2 * dy,
                        0 < dy <= 0x7fff_ffff,
                ;
                let n: i64 = k * diff;
                let a: i64 = if n >= 0 { n } else { -n };
                if a % den == 0 {
                    let q: i64 = a / den;
                    let col: i64 = if n >= 0 { x0 as i64 + q } else { x0 as i64 - q };
                    proof {
                        lemma_crossing_col_bounds(x0 as int, x1 as int, k as int, den as int);
                    }
                    assert(col == crossing_col(x0 as int, diff as int, k as int, den as int));
                    let col = col as i32;
                    proof {
                        lemma_grid_index_ok(self.width as int, self.height as int, self.map@.len() as int, col as int, (y0 + iy) as int);
                        lemma_grid_index_ok(self.width as int, self.height as int, self.map@.len() as int, col as int, (y0 + iy + 1) as int);
                    }
                    if get_at(&self.map, col, y0 + iy, width) == Cell::Wall || get_at(&self.map, col, y0 + iy + 1, width) == Cell::Wall {
                        assert(crossing_blocked(self.map@, self.width as int, x0 as int, y0 as int, x1 as int, dy as int, iy as int));
                        assert(!segment_clear(self.map@, self.width as int, x0 as int, y0 as int, x1 as int, dy as int));
                        return false;
                    }
                }
                assert(!crossing_blocked(self.map@, self.width as int, x0 as int, y0 as int, x1 as int, dy as int, iy as int));
                iy = iy + 1;
            }
            assert(segment_clear(self.map@, self.width as int, x0 as int, y0 as int, x1 as int, dy as int));
        }
        true
    }

    /// Wraps the empty cells under the worker and under the manipulators in
    /// sight, appending them to `wrapped`.
    pub fn wrap(&mut self, wrapped: &mut Vec<Point>)
        requires
            old(self)@.wf(),
        ensures
            final(self)@ == old(self)@.wrapped().0,
            final(wrapped)@ == old(wrapped)@ + old(self)@.wrapped().1,
    {
        let ghost p0 = self@;
        let ghost map0 = self.map@;
        let ghost w0 = wrapped@;
        let ghost w = self.width as int;
        let ghost h = self.height as int;
        let body = self.body;
        proof {
            lemma_grid_index_ok(w, h, map0.len() as int, body.x as int, body.y as int);
            assert(seq![(body.x as int, body.y as int)].drop_last() =~= Seq::<(int, int)>::empty());
        }
        if wrap_at(&mut self.map, body.x, body.y, self.width) {
            wrapped.push(body);
        }
        proof {
            let c0 = seq![(body.x as int, body.y as int)];
            assert(self.manipulators@.take(0) =~= Seq::<Point>::empty());
            assert(manip_cands(map0, w, h, body, self.direction as int, Seq::<Point>::empty()) =~= Seq::<(int, int)>::empty());
            assert(wrap_fold(map0, w, Seq::<(int, int)>::empty()) == (map0, Seq::<Point>::empty()));
            assert(c0.last() == (body.x as int, body.y as int));
            assert(c0 + manip_cands(map0, w, h, body, self.direction as int, self.manipulators@.take(0)) =~= c0);
            assert(wrapped@ =~= w0 + wrap_fold(map0, w, c0).1);
            lemma_wrap_fold(map0, w, h, c0);
        }
        let n = self.manipulators.len();
        for i in 0..n
            invariant
                n == self.manipulators@.len(),
                p0.wf(),
                self.map@.len() == map0.len(),
                self.body == p0.body,
                self.direction == p0.direction,
                self.width == p0.width,
                self.height == p0.height,
                self.manipulators@ == p0.manipulators,
                self.rest_b == p0.rest_b,
                self.rest_f == p0.rest_f,
                self.rest_l == p0.rest_l,
                self.fast == p0.fast,
                self.drill == p0.drill,
                map0 == p0.map,
                body == p0.body,
                w == self.width,
                h == self.height,
                same_walls(map0, self.map@),
                all_in_grid(seq![(body.x as int, body.y as int)] + manip_cands(map0, w, h, body, self.direction as int, self.manipulators@.take(i as int)), w, h),
                self.map@ == wrap_fold(map0, w, seq![(body.x as int, body.y as int)] + manip_cands(map0, w, h, body, self.direction as int, self.manipulators@.take(i as int))).0,
                wrapped@ == w0 + wrap_fold(map0, w, seq![(body.x as int, body.y as int)] + manip_cands(map0, w, h, body, self.direction as int, self.manipulators@.take(i as int))).1,
        {
            let ghost ms = self.manipulators@;
            let ghost c0 = seq![(body.x as int, body.y as int)];
            let ghost prev = manip_cands(map0, w, h, body, self.direction as int, ms.take(i as int));
            let point = self.manipulators[i];
            assert(small(point)) by {
                assert(p0.manipulators[i as int] == point);
            }
            let (dx, dy) = match self.direction {
                0 => (point.x, point.y),
                1 => (-point.y, point.x),
                2 => (-point.x, -point.y),
                _ => (point.y, -point.x),
            };
            let x = body.x + dx;
            let y = body.y + dy;
            proof {
                assert(ms.take(i + 1).drop_last() =~= ms.take(i as int));
                assert(ms.take(i + 1).last() == point);
                assert(rotated(point, self.direction as int) == (dx as int, dy as int));
                lemma_manip_cands_same_walls(map0, map0, w, h, body, self.direction as int, ms.take(i + 1));
                let t = (x as int, y as int);
                if in_grid(x as int, y as int, w, h) {
                    lemma_reachable_same_walls(map0, self.map@, w, h, body.x as int, body.y as int, x as int, y as int);
                }
            }
            let ghost cur = manip_cands(map0, w, h, body, self.direction as int, ms.take(i + 1));
            let ghost m_before = self.map@;
            if 0 <= x && x < self.width && 0 <= y && y < self.height && self.is_reachable(x, y, self.width) {
                proof {
                    lemma_grid_index_ok(w, h, self.map@.len() as int, x as int, y as int);
                    assert(cur == prev.push((x as int, y as int)));
                    assert(c0 + cur =~= (c0 + prev).push((x as int, y as int)));
                    assert((c0 + cur).drop_last() =~= c0 + prev);
                }
                if wrap_at(&mut self.map, x, y, self.width) {
                    wrapped.push(Point { x: x, y: y });
                }
            } else {
                assert(cur == prev);
            }
            proof {
                lemma_wrap_fold(map0, w, h, c0 + cur);
            }
        }
        proof {
            assert(self.manipulators@.take(n as int) =~= self.manipulators@);
        }
    }

    /// Applies a walking or turning move: `None` where a walk would leave the
    /// grid or enter a wall (nothing changes then), else the cells wrapped.
    pub fn apply(&mut self, mo: &Move) -> (r: Option<MoveResult>)
        requires
            old(self)@.wf(),
            is_step_move(*mo),
        ensures
            match apply_spec(old(self)@, *mo) {
                None => r is None && final(self)@ == old(self)@,
                Some(res) => r is Some && final(self)@ == res.0 && r->0.wrapped@ == res.1,
            },
    {
        let mut wrapped = Vec::new();
        let x = self.body.x;
        let y = self.body.y;
        match mo {
            Move::W => {
                if self.is_out(x, y - 1) {
                    return None;
                }
                self.body.y = self.body.y - 1;
                self.wrap(&mut wrapped);
            },
            Move::A => {
                if self.is_out(x - 1, y) {
                    return None;
                }
                self.body.x = self.body.x - 1;
                self.wrap(&mut wrapped);
            },
            Move::S => {
                if self.is_out(x, y + 1) {
                    return None;
                }
                self.body.y = self.body.y + 1;
                self.wrap(&mut wrapped);
            },
            Move::D => {
                if self.is_out(x + 1, y) {
                    return None;
                }
                self.body.x = self.body.x + 1;
                self.wrap(&mut wrapped);
            },
            Move::Clockwize => {
                self.direction = self.direction + 1;
                self.direction = self.direction % 4;
                self.wrap(&mut wrapped);
            },
            _ => {
                self.direction = self.direction + 3;
                self.direction = self.direction % 4;
                self.wrap(&mut wrapped);
            },
        }
        assert(wrapped@ =~= Seq::<Point>::empty() + wrapped@);
        Some(MoveResult { wrapped })
    }

    /// Takes a move back: the worker steps or turns back and the cells that
    /// the move wrapped are empty again.
    pub fn back(&mut self, mo: &Move, result: &MoveResult)
        requires
            grid_ok(old(self).width as int, old(self).height as int, old(self).map@.len() as int),
            0 <= old(self).direction < 4,
            i32::MIN < old(self).body.x < i32::MAX,
            i32::MIN < old(self).body.y < i32::MAX,
            is_step_move(*mo),
            points_in_grid(result.wrapped@, old(self).width as int, old(self).height as int),
        ensures
            final(self)@ == back_spec(old(self)@, *mo, result.wrapped@),
    {
        match mo {
            Move::W => {
                self.body.y = self.body.y + 1;
            },
            Move::A => {
                self.body.x = self.body.x + 1;
            },
            Move::S => {
                self.body.y = self.body.y - 1;
            },
            Move::D => {
                self.body.x = self.body.x - 1;
            },
            Move::Clockwize => {
                self.direction = self.direction + 3;
                self.direction = self.direction % 4;
            },
            _ => {
                self.direction = self.direction + 1;
                self.direction = self.direction % 4;
            },
        }
        let ghost q = self@;
        let n = result.wrapped.len();
        for i in 0..n
            invariant
                n == result.wrapped@.len(),
                points_in_grid(result.wrapped@, self.width as int, self.height as int),
                grid_ok(self.width as int, self.height as int, self.map@.len() as int),
                self@ == (PositionModel { map: self.map@, ..q }),
                self.map@ == unwrap_fold(q.map, q.width as int, result.wrapped@.take(i as int)),
        {
            let point = result.wrapped[i];
            proof {
                assert(in_grid(point.x as int, point.y as int, self.width as int, self.height as int));
                lemma_grid_index_ok(self.width as int, self.height as int, self.map@.len() as int, point.x as int, point.y as int);
                assert(result.wrapped@.take(i + 1).drop_last() =~= result.wrapped@.take(i as int));
                assert(result.wrapped@.take(i + 1).last() == point);
            }
            set_at(&mut self.map, point.x, point.y, self.width, Cell::Empty);
        }
        assert(result.wrapped@.take(n as int) =~= result.wrapped@);
    }
}

proof fn lemma_count_cell_update(s: Seq<Cell>, j: int, v: Cell, c: Cell)
    requires
        0 <= j < s.len(),
        s[j] == c,
        v != c,
    ensures
        count_cell(s.update(j, v), c) + 1 == count_cell(s, c),
    decreases s.len(),
{
    let u = s.update(j, v);
    if j == s.len() - 1 {
        assert(u.drop_last() =~= s.drop_last());
    } else {
        lemma_count_cell_update(s.drop_last(), j, v, c);
        assert(u.drop_last() =~= s.drop_last().update(j, v));
    }
}

proof fn lemma_wrap_fold_count(map: Seq<Cell>, width: int, height: int, cs: Seq<(int, int)>)
    requires
        grid_ok(width, height, map.len() as int),
        all_in_grid(cs, width, height),
    ensures
        count_cell(wrap_fold(map, width, cs).0, Cell::Empty) + wrap_fold(map, width, cs).1.len() == count_cell(map, Cell::Empty),
    decreases cs.len(),
{
    if cs.len() > 0 {
        let rest = cs.drop_last();
        assert(all_in_grid(rest, width, height)) by {
            assert forall|k: int| 0 <= k < rest.len() implies in_grid(#[trigger] rest[k].0, rest[k].1, width, height) by {
                assert(rest[k] == cs[k]);
            }
        }
        lemma_wrap_fold_count(map, width, height, rest);
        lemma_wrap_fold(map, width, height, rest);
        let prev = wrap_fold(map, width, rest);
        let c = cs.last();
        assert(in_grid(c.0, c.1, width, height)) by {
            assert(cs[cs.len() - 1] == c);
        }
        lemma_index(c.0, c.1, width, height);
        let j = idx(c.0, c.1, width);
        if prev.0[j] == Cell::Empty {
            lemma_count_cell_update(prev.0, j, Cell::Wrapped, Cell::Empty);
        }
    }
}

/// Every cell that wrapping considers lies in the grid.
proof fn lemma_wrap_cands_in_grid(p: PositionModel)
    requires
        grid_ok(p.width as int, p.height as int, p.map.len() as int),
        in_grid(p.body.x as int, p.body.y as int, p.width as int, p.height as int),
    ensures
        all_in_grid(p.wrap_cands(), p.width as int, p.height as int),
{
    let c0 = seq![(p.body.x as int, p.body.y as int)];
    let mc = manip_cands(p.map, p.width as int, p.height as int, p.body, p.direction as int, p.manipulators);
    lemma_manip_cands_same_walls(p.map, p.map, p.width as int, p.height as int, p.body, p.direction as int, p.manipulators);
    assert forall|k: int| 0 <= k < p.wrap_cands().len() implies in_grid(#[trigger] p.wrap_cands()[k].0, p.wrap_cands()[k].1, p.width as int, p.height as int) by {
        if k > 0 {
            assert(p.wrap_cands()[k] == mc[k - 1]);
        }
    }
}

/// Taking back a move that applied gives the position as it was before the
/// move; the moved position and the record of the move meet what `back`
/// asks.
pub proof fn lemma_back_undoes_apply(p: PositionModel, mo: Move)
    requires
        p.wf(),
        is_step_move(mo),
        apply_spec(p, mo) is Some,
    ensures
        back_spec((apply_spec(p, mo)->0).0, mo, (apply_spec(p, mo)->0).1) == p,
        (apply_spec(p, mo)->0).0.wf(),
        points_in_grid((apply_spec(p, mo)->0).1, p.width as int, p.height as int),
{
    let s = step_of(mo);
    let p1 = match mo {
        Move::Clockwize => p.turned((p.direction + 1) % 4),
        Move::Anticlockwise => p.turned((p.direction + 3) % 4),
        _ => p.moved(s.0, s.1),
    };
    lemma_wrap_cands_in_grid(p1);
    lemma_wrap_fold(p1.map, p1.width as int, p1.height as int, p1.wrap_cands());
    lemma_unwrap_wrap(p1.map, p1.width as int, p1.height as int, p1.wrap_cands());
    let res = apply_spec(p, mo)->0;
    assert(res == p1.wrapped());
    let b = back_spec(res.0, mo, res.1);
    assert(b.map =~= p.map);
    assert(b.body == p.body);
    assert(b.direction == p.direction);
}

/// A move keeps the position well formed.
pub proof fn lemma_apply_keeps_wf(p: PositionModel, mo: Move)
    requires
        p.wf(),
        is_step_move(mo),
        apply_spec(p, mo) is Some,
    ensures
        (apply_spec(p, mo)->0).0.wf(),
{
    let s = step_of(mo);
    let p1 = match mo {
        Move::Clockwize => p.turned((p.direction + 1) % 4),
        Move::Anticlockwise => p.turned((p.direction + 3) % 4),
        _ => p.moved(s.0, s.1),
    };
    lemma_wrap_cands_in_grid(p1);
    lemma_wrap_fold(p1.map, p1.width as int, p1.height as int, p1.wrap_cands());
}

/// A quarter turn clockwise on the map, whose rows run downward: right
/// becomes down, down becomes left, left up and up right.
pub open spec fn clockwise(v: (int, int)) -> (int, int) {
    (-v.1, v.0)
}

/// Arms turn with the worker. Facing right (heading 0) each arm lies at its
/// own offset from the worker; each heading is one quarter turn clockwise
/// from the one before it, so turning clockwise turns every arm's offset a
/// quarter turn clockwise on the map (the arm ahead of a worker facing right
/// ends up below it), turning anticlockwise turns it back, and in both the
/// worker and its arms stay as they were.
pub proof fn lemma_turns_move_arms(p: PositionModel, arm: Point)
    requires
        0 <= p.direction < 4,
    ensures
        rotated(arm, 0) == (arm.x as int, arm.y as int),
        forall|d: int| 0 <= d < 4 ==> #[trigger] rotated(arm, (d + 1) % 4) == clockwise(rotated(arm, d)),
        ({
            let q = (apply_spec(p, Move::Clockwize)->0).0;
            &&& q.body == p.body
            &&& q.manipulators == p.manipulators
            &&& rotated(arm, q.direction as int) == clockwise(rotated(arm, p.direction as int))
        }),
        ({
            let q = (apply_spec(p, Move::Anticlockwise)->0).0;
            &&& q.body == p.body
            &&& q.manipulators == p.manipulators
            &&& clockwise(rotated(arm, q.direction as int)) == rotated(arm, p.direction as int)
        }),
{
}

/// A move wraps only empty cells, each once: the number of empty cells drops
/// by the number of cells wrapped.
pub proof fn lemma_apply_counts_wrapped(p: PositionModel, mo: Move)
    requires
        p.wf(),
        is_step_move(mo),
        apply_spec(p, mo) is Some,
    ensures
        count_cell((apply_spec(p, mo)->0).0.map, Cell::Empty) + (apply_spec(p, mo)->0).1.len() == count_cell(p.map, Cell::Empty),
{
    let s = step_of(mo);
    let p1 = match mo {
        Move::Clockwize => p.turned((p.direction + 1) % 4),
        Move::Anticlockwise => p.turned((p.direction + 3) % 4),
        _ => p.moved(s.0, s.1),
    };
    lemma_wrap_cands_in_grid(p1);
    lemma_wrap_fold_count(p1.map, p1.width as int, p1.height as int, p1.wrap_cands());
}


/// The cells of a map that are not walls.
pub open spec fn open_cells(map: Seq<Cell>) -> Seq<bool> {
    map.map_values(|c: Cell| c != Cell::Wall)
}

/// The cells of a map that are still empty.
pub open spec fn empty_cells(map: Seq<Cell>) -> Seq<bool> {
    map.map_values(|c: Cell| c == Cell::Empty)
}

/// The direction code of a walking move: 0 up, 1 left, 2 down, 3 right.
pub open spec fn move_code(mo: Move) -> u8 {
    match mo {
        Move::W => 0,
        Move::A => 1,
        Move::S => 2,
        _ => 3,
    }
}

/// Where the moves `moves`, all of them walks, lead the worker; `None`
/// where one would leave the grid or enter a wall.
pub open spec fn route_end(p: PositionModel, moves: Seq<Move>) -> Option<(int, int)> {
    walk_to(
        open_cells(p.map),
        p.width as int,
        p.height as int,
        p.body.x as int,
        p.body.y as int,
        0,
        moves.map_values(|m: Move| move_code(m)),
    )
}

/// Some route of walks leads the worker to an empty cell.
pub open spec fn empty_reachable(p: PositionModel) -> bool {
    exists|path: Seq<u8>|
        #![trigger walk_to(open_cells(p.map), p.width as int, p.height as int, p.body.x as int, p.body.y as int, 0, path)]
        walk_to(open_cells(p.map), p.width as int, p.height as int, p.body.x as int, p.body.y as int, 0, path) is Some
            && empty_cells(p.map)[idx(
            (walk_to(open_cells(p.map), p.width as int, p.height as int, p.body.x as int, p.body.y as int, 0, path)->0).0,
            (walk_to(open_cells(p.map), p.width as int, p.height as int, p.body.x as int, p.body.y as int, 0, path)->0).1,
            p.width as int,
        )]
}

/// The walking move of a direction code.
fn code_move(d: u8) -> (r: Move)
    requires
        d < 4,
    ensures
        move_code(r) == d,
        r is W || r is A || r is S || r is D,
{
    if d == 0 {
        Move::W
    } else if d == 1 {
        Move::A
    } else if d == 2 {
        Move::S
    } else {
        Move::D
    }
}

/// The moves of a route of direction codes.
pub(crate) fn moves_of(path: &Vec<u8>) -> (r: std::collections::VecDeque<Move>)
    requires
        forall|i: int| 0 <= i < path@.len() ==> #[trigger] path@[i] < 4,
    ensures
        r@.map_values(|m: Move| move_code(m)) == path@,
        forall|i: int| 0 <= i < r@.len() ==> (#[trigger] r@[i] is W || r@[i] is A || r@[i] is S || r@[i] is D),
{
    let mut r: std::collections::VecDeque<Move> = std::collections::VecDeque::new();
    let n = path.len();
    for i in 0..n
        invariant
            n == path@.len(),
            forall|i: int| 0 <= i < path@.len() ==> #[trigger] path@[i] < 4,
            r@.len() == i,
            forall|k: int| 0 <= k < i ==> move_code(#[trigger] r@[k]) == path@[k],
            forall|k: int| 0 <= k < i ==> (#[trigger] r@[k] is W || r@[k] is A || r@[k] is S || r@[k] is D),
    {
        r.push_back(code_move(path[i]));
    }
    assert(r@.map_values(|m: Move| move_code(m)) =~= path@);
    r
}

impl Position {
    /// A route of walks from the worker to an empty cell: the one a breadth
    /// first search finds first (the first entry of `target_search`), trying up, left, down and right in turn, so
    /// that no route to an empty cell is shorter. Some empty cell must be
    /// reachable.
    pub fn find_target(&self) -> (r: Target)
        requires
            self@.wf(),
            empty_reachable(self@),
        ensures
            route_end(self@, r.moves@) is Some,
            cell_at(self@.map, (route_end(self@, r.moves@)->0).0, (route_end(self@, r.moves@)->0).1, self.width as int)
                == Cell::Empty,
            forall|i: int| 0 <= i < r.moves@.len() ==> (#[trigger] r.moves@[i] is W || r.moves@[i] is A || r.moves@[i] is S
                || r.moves@[i] is D),
            nearest(
                open_cells(self@.map),
                empty_cells(self@.map),
                self.width as int,
                self.height as int,
                seq![(self.body.x, self.body.y, 0i32)],
                r.moves@.len(),
            ),
            target_search(self@).len() == 1,
            r.moves@.map_values(|m: Move| move_code(m)) == target_search(self@)[0].path,
    {
        match self.try_find_target() {
            Some(t) => t,
            None => Target { moves: std::collections::VecDeque::new() },
        }
    }

    /// The route `find_target` gives, or `None` where no empty cell can be
    /// reached.
    pub fn try_find_target(&self) -> (r: Option<Target>)
        requires
            self@.wf(),
        ensures
            r is None <==> !empty_reachable(self@),
            r matches Some(t) ==> nearest(
                open_cells(self@.map),
                empty_cells(self@.map),
                self.width as int,
                self.height as int,
                seq![(self.body.x, self.body.y, 0i32)],
                t.moves@.len(),
            ),
            r is None <==> target_search(self@).len() == 0,
            r matches Some(t) ==> target_search(self@).len() == 1 && t.moves@.map_values(|m: Move| move_code(m))
                == target_search(self@)[0].path,
            r matches Some(t) ==> route_end(self@, t.moves@) is Some && cell_at(
                self@.map,
                (route_end(self@, t.moves@)->0).0,
                (route_end(self@, t.moves@)->0).1,
                self.width as int,
            ) == Cell::Empty && forall|i: int|
                0 <= i < t.moves@.len() ==> (#[trigger] t.moves@[i] is W || t.moves@[i] is A || t.moves@[i] is S
                    || t.moves@[i] is D),
    {
        let n = self.map.len();
        let mut open: Vec<bool> = Vec::new();
        let mut goal: Vec<bool> = Vec::new();
        for i in 0..n
            invariant
                n == self.map@.len(),
                open@.len() == i,
                goal@.len() == i,
                forall|k: int| 0 <= k < i ==> #[trigger] open@[k] == (self.map@[k] != Cell::Wall),
                forall|k: int| 0 <= k < i ==> #[trigger] goal@[k] == (self.map@[k] == Cell::Empty),
        {
            open.push(self.map[i] != Cell::Wall);
            goal.push(self.map[i] == Cell::Empty);
        }
        proof {
            assert(open@ =~= open_cells(self@.map));
            assert(goal@ =~= empty_cells(self@.map));
        }
        let starts = vec![(self.body.x, self.body.y, 0i32)];
        let order: Vec<u8> = vec![0u8, 1u8, 2u8, 3u8];
        proof {
            assert(order@[0] == 0u8 && order@[1] == 1u8 && order@[2] == 2u8 && order@[3] == 3u8);
            assert(covers(order@));
            assert(no_boost(starts@));
        }
        let found = explore(&open, &goal, self.width, self.height, &starts, &order, false);
        proof {
            assert(order@ =~= seq![0u8, 1u8, 2u8, 3u8]);
            assert(starts@ =~= seq![(self.body.x, self.body.y, 0i32)]);
            assert(found_entries(found@) == target_search(self@));
        }
        if found.len() == 0 {
            proof {
                if empty_reachable(self@) {
                let path = choose|path: Seq<u8>|
                    #![trigger walk_to(open_cells(self@.map), self.width as int, self.height as int, self.body.x as int, self.body.y as int, 0, path)]
                    walk_to(open_cells(self@.map), self.width as int, self.height as int, self.body.x as int, self.body.y as int, 0, path) is Some
                        && empty_cells(self@.map)[idx(
                        (walk_to(open_cells(self@.map), self.width as int, self.height as int, self.body.x as int, self.body.y as int, 0, path)->0).0,
                        (walk_to(open_cells(self@.map), self.width as int, self.height as int, self.body.x as int, self.body.y as int, 0, path)->0).1,
                        self.width as int,
                    )];
                assert(starts@[0].0 == self.body.x && starts@[0].1 == self.body.y && starts@[0].2 == 0);
                assert(walk_to(open@, self.width as int, self.height as int, starts@[0].0 as int, starts@[0].1 as int, starts@[0].2 as int, path) is Some);
                assert(false);
                }
            }
            return None;
        }
        proof {
            assert(found_ok(open@, goal@, self.width as int, self.height as int, starts@, found@[0]));
            let f = found@[0];
            lemma_index(f.x as int, f.y as int, self.width as int, self.height as int);
            assert(goal@[idx(f.x as int, f.y as int, self.width as int)]);
        }
        let moves = moves_of(&found[0].path);
        let r = Target { moves };
        proof {
            assert(moves@.map_values(|m: Move| move_code(m)).len() == moves@.len());
            assert(starts@ =~= seq![(self.body.x, self.body.y, 0i32)]);
            assert(empty_reachable(self@)) by {
                let path = found@[0].path@;
                assert(walk_to(open_cells(self@.map), self.width as int, self.height as int, self.body.x as int, self.body.y as int, 0, path) is Some);
            }
            assert(found_entries(found@)[0] == found@[0]@);
        }
        Some(r)
    }
}


/// What the search for a target gives: from the worker, trying up, left,
/// down and right in turn, the first empty cell it takes from its queue.
pub open spec fn target_search(p: PositionModel) -> Seq<Entry> {
    searched(
        Field { open: open_cells(p.map), width: p.width as int, height: p.height as int, starts: seq![(p.body.x, p.body.y, 0i32)] },
        seq![0u8, 1u8, 2u8, 3u8],
        empty_cells(p.map),
        false,
    )
}

/// The cell of a grid code: a wall outside the mine, wrapped under the
/// worker, a booster where one lies, else empty.
pub open spec fn grid_cell(code: i32) -> Cell {
    if code == 1 {
        Cell::Empty
    } else if code == 2 {
        Cell::Wrapped
    } else if code == 3 {
        Cell::B
    } else if code == 4 {
        Cell::F
    } else if code == 5 {
        Cell::L
    } else if code == 6 {
        Cell::X
    } else if code == 7 {
        Cell::R
    } else if code == 8 {
        Cell::C
    } else {
        Cell::Wall
    }
}

/// The position that starts on a laid out grid.
pub open spec fn start_model(g: Grid) -> PositionModel {
    PositionModel {
        body: Point { x: g.worker.0 as i32, y: g.worker.1 as i32 },
        map: g.cells@.map_values(|c: i32| grid_cell(c)),
        direction: 0,
        width: g.width as i32,
        height: g.height as i32,
        manipulators: seq![Point { x: 1i32, y: -1i32 }, Point { x: 1i32, y: 0i32 }, Point { x: 1i32, y: 1i32 }],
        rest_b: 0,
        rest_f: 0,
        rest_l: 0,
        fast: 0,
        drill: 0,
    }
}

impl Position {
    /// The position of a laid out grid: the worker on its cell, heading
    /// right with its three starting arms, and no boosters held.
    pub fn from_grid(grid: &Grid) -> (r: Position)
        requires
            playable(*grid),
            grid.worker.0 < grid.width,
        ensures
            r@.wf(),
            r@.map == grid.cells@.map_values(|c: i32| grid_cell(c)),
            r.width == grid.width,
            r.height == grid.height,
            r.body == (Point { x: grid.worker.0 as i32, y: grid.worker.1 as i32 }),
            r.direction == 0,
            r@.manipulators == seq![Point { x: 1i32, y: -1i32 }, Point { x: 1i32, y: 0i32 }, Point { x: 1i32, y: 1i32 }],
            r.rest_b == 0 && r.rest_f == 0 && r.rest_l == 0 && r.fast == 0 && r.drill == 0,
            r@ == start_model(*grid),
    {
        let n = grid.cells.len();
        let mut map: Vec<Cell> = Vec::new();
        for i in 0..n
            invariant
                n == grid.cells@.len(),
                map@.len() == i,
                forall|k: int| 0 <= k < i ==> #[trigger] map@[k] == grid_cell(grid.cells@[k]),
        {
            let code = grid.cells[i];
            let cell = if code == 1 {
                Cell::Empty
            } else if code == 2 {
                Cell::Wrapped
            } else if code == 3 {
                Cell::B
            } else if code == 4 {
                Cell::F
            } else if code == 5 {
                Cell::L
            } else if code == 6 {
                Cell::X
            } else if code == 7 {
                Cell::R
            } else if code == 8 {
                Cell::C
            } else {
                Cell::Wall
            };
            map.push(cell);
        }
        let arms = vec![Point { x: 1, y: -1 }, Point { x: 1, y: 0 }, Point { x: 1, y: 1 }];
        let r = Position {
            body: Point { x: grid.worker.0 as i32, y: grid.worker.1 as i32 },
            map,
            direction: 0,
            width: grid.width as i32,
            height: grid.height as i32,
            manipulators: arms,
            rest_b: 0,
            rest_f: 0,
            rest_l: 0,
            fast: 0,
            drill: 0,
        };
        proof {
            assert(r@.map =~= grid.cells@.map_values(|c: i32| grid_cell(c)));
            assert(arms@ =~= seq![Point { x: 1i32, y: -1i32 }, Point { x: 1i32, y: 0i32 }, Point { x: 1i32, y: 1i32 }]);
            assert(forall|i: int| 0 <= i < r@.manipulators.len() ==> small(#[trigger] r@.manipulators[i]));
        }
        r
    }

    /// Reads a task description into the position it starts from; a worker
    /// whose column lies past the grid's width is refused, as a position
    /// keeps its worker on the grid.
    pub fn from_desc(text: &[u8]) -> (r: Result<Position, DescError>)
        ensures
            match desc_of(text@) {
                None => r == Err::<Position, DescError>(DescError::Syntax),
                Some(d) => match layout_spec(d) {
                    None => r is Err,
                    Some(g) => if d.worker.0 < g.0 {
                        r is Ok && (r->Ok_0).width == g.0 && (r->Ok_0).height == g.1 && exists|gr: Grid|
                            #[trigger] laid(d, gr) && (r->Ok_0)@ == start_model(gr)
                    } else {
                        r == Err::<Position, DescError>(DescError::OutOfMap(d.worker.0 as usize, d.worker.1 as usize))
                    },
                },
            },
            r matches Ok(p) ==> p@.wf(),
    {
        let desc = parse_desc(text)?;
        let grid = layout(&desc)?;
        if grid.worker.0 >= grid.width {
            return Err(DescError::OutOfMap(desc.worker.0, desc.worker.1));
        }
        let r = Position::from_grid(&grid);
        assert(laid(desc@, grid));
        Ok(r)
    }
}

/// The character a text log shows for a cell: `#` for a wall, `.` for an
/// empty and `-` for a wrapped cell, else the booster's letter.
pub open spec fn glyph_of(c: Cell) -> u8 {
    match c {
        Cell::Wall => 35,
        Cell::Empty => 46,
        Cell::Wrapped => 45,
        Cell::B => 66,
        Cell::F => 70,
        Cell::L => 76,
        Cell::R => 82,
        Cell::X => 88,
        Cell::C => 67,
    }
}

fn glyph(c: Cell) -> (r: u8)
    ensures
        r == glyph_of(c),
{
    match c {
        Cell::Wall => 35,
        Cell::Empty => 46,
        Cell::Wrapped => 45,
        Cell::B => 66,
        Cell::F => 70,
        Cell::L => 76,
        Cell::R => 82,
        Cell::X => 88,
        Cell::C => 67,
    }
}

impl Position {
    /// The characters of the map's rows, the worker shown as `@`:
    /// character `y * width + x` shows cell `(x, y)`.
    pub fn glyph_rows(&self) -> (r: Vec<u8>)
        requires
            self@.wf(),
        ensures
            r@.len() == self.width * self.height,
            forall|i: int|
                0 <= i < r@.len() ==> #[trigger] r@[i] == (if i % (self.width as int) == self.body.x && i / (self.width as int)
                    == self.body.y {
                    64u8
                } else {
                    glyph_of(self.map@[i])
                }),
    {
        let width = self.width;
        let n = self.map.len();
        let w = width as usize;
        let mut r: Vec<u8> = Vec::new();
        for i in 0..n
            invariant
                n == self.map@.len(),
                w == width,
                width == self.width,
                0 < width,
                n == self.width * self.height,
                r@.len() == i,
                forall|k: int| 0 <= k < i ==> #[trigger] r@[k] == (if k % (width as int) == self.body.x && k / (width as int)
                    == self.body.y {
                    64u8
                } else {
                    glyph_of(self.map@[k])
                }),
        {
            assert(i / w <= self.height) by (nonlinear_arith)
                requires
                    i < w * self.height,
                    0 < w,
            ;
            let x = (i % w) as i32;
            let y = (i / w) as i32;
            if x == self.body.x && y == self.body.y {
                r.push(64);
            } else {
                r.push(glyph(self.map[i]));
            }
        }
        r
    }
}

/// The moves a greedy step weighs, in order.
pub open spec fn weighed(i: int) -> Move {
    if i == 0 {
        Move::W
    } else if i == 1 {
        Move::A
    } else if i == 2 {
        Move::S
    } else if i == 3 {
        Move::D
    } else if i == 4 {
        Move::Clockwize
    } else {
        Move::Anticlockwise
    }
}

/// The cells a move would wrap; none where it cannot be made.
pub open spec fn gain(p: PositionModel, mo: Move) -> int {
    match apply_spec(p, mo) {
        Some(r) => r.1.len() as int,
        None => 0,
    }
}

/// The best of the first `k` weighed moves and what it wraps: the first of
/// those that wrap the most, where that is more than nothing; else `W`.
pub open spec fn best_of(p: PositionModel, k: int) -> (int, Move)
    decreases k,
{
    if k <= 0 {
        (0, Move::W)
    } else {
        let b = best_of(p, k - 1);
        if gain(p, weighed(k - 1)) > b.0 {
            (gain(p, weighed(k - 1)), weighed(k - 1))
        } else {
            b
        }
    }
}

proof fn lemma_best_of_none(p: PositionModel, k: int)
    ensures
        best_of(p, k).0 >= 0,
        best_of(p, k).0 <= 0 ==> best_of(p, k).1 == Move::W,
    decreases k,
{
    if k > 0 {
        lemma_best_of_none(p, k - 1);
    }
}

impl Position {
    /// One step of the greedy search: the weighed move that wraps the most,
    /// where one wraps anything, forgetting the route followed so far;
    /// else the next move of that route, or of a new route to a nearest
    /// empty cell where there is none, `W` where the route is spent. The
    /// position is left as it was; `None` only where a new route is wanted
    /// and no empty cell can be reached.
    pub fn choose_move(&mut self, prev_target: &mut Option<Target>) -> (r: Option<Move>)
        requires
            old(self)@.wf(),
        ensures
            final(self)@ == old(self)@,
            best_of(old(self)@, 6).0 > 0 ==> r == Some(best_of(old(self)@, 6).1) && (*final(prev_target)) is None,
            best_of(old(self)@, 6).0 <= 0 && (*old(prev_target)) is Some ==> if (*old(prev_target))->0.moves@.len() > 0 {
                &&& r == Some((*old(prev_target))->0.moves@[0])
                &&& (*final(prev_target)) is Some
                &&& (*final(prev_target))->0.moves@ == (*old(prev_target))->0.moves@.drop_first()
            } else {
                r == Some(Move::W) && (*final(prev_target)) is None
            },
            best_of(old(self)@, 6).0 <= 0 && (*old(prev_target)) is None ==> {
                &&& r is None <==> !empty_reachable(old(self)@)
                &&& r is Some && (*final(prev_target)) is None ==> r == Some(Move::W) && target_search(old(self)@)[0].path.len() == 0
                &&& r is Some && (*final(prev_target)) is Some ==> (seq![r->0] + (*final(prev_target))->0.moves@).map_values(
                    |m: Move| move_code(m),
                ) == target_search(old(self)@)[0].path
                &&& r is Some && (*final(prev_target)) is Some ==> {
                    let route = seq![r->0] + (*final(prev_target))->0.moves@;
                    &&& route_end(old(self)@, route) is Some
                    &&& cell_at(
                        old(self)@.map,
                        (route_end(old(self)@, route)->0).0,
                        (route_end(old(self)@, route)->0).1,
                        old(self).width as int,
                    ) == Cell::Empty
                    &&& nearest(
                        open_cells(old(self)@.map),
                        empty_cells(old(self)@.map),
                        old(self).width as int,
                        old(self).height as int,
                        seq![(old(self).body.x, old(self).body.y, 0i32)],
                        route.len(),
                    )
                }
            },
    {
        let ghost p0 = self@;
        let moves = [Move::W, Move::A, Move::S, Move::D, Move::Clockwize, Move::Anticlockwise];
        let mut best_gain: usize = 0;
        let mut best_move = Move::W;
        let mut i: usize = 0;
        while i < 6
            invariant
                0 <= i <= 6,
                self@ == p0,
                p0.wf(),
                moves@ == seq![Move::W, Move::A, Move::S, Move::D, Move::Clockwize, Move::Anticlockwise],
                best_gain as int == best_of(p0, i as int).0,
                best_move == best_of(p0, i as int).1,
            decreases 6 - i,
        {
            let mo = moves[i];
            assert(mo == weighed(i as int));
            match self.apply(&mo) {
                Some(result) => {
                    let g = result.wrapped.len();
                    proof {
                        lemma_back_undoes_apply(p0, mo);
                    }
                    self.back(&mo, &result);
                    if g > best_gain {
                        best_gain = g;
                        best_move = mo;
                    }
                },
                None => {},
            }
            i += 1;
        }
        proof {
            lemma_best_of_none(p0, 6);
        }
        if best_gain > 0 {
            *prev_target = None;
            return Some(best_move);
        }
        let mut cur: Option<Target> = None;
        std::mem::swap(&mut cur, prev_target);
        let mut target = match cur {
            Some(t) => t,
            None => match self.try_find_target() {
                Some(t) => t,
                None => return None,
            },
        };
        let ghost ms = target.moves@;
        match target.moves.pop_front() {
            Some(m) => {
                proof {
                    assert(seq![m] + target.moves@ =~= ms);
                }
                *prev_target = Some(target);
                Some(m)
            },
            None => {
                proof {
                    assert(ms.map_values(|m: Move| move_code(m)).len() == 0);
                }
                Some(best_move)
            },
        }
    }
}

/// Boosters keep their letters from the description to the position: the
/// letters B, F, L, X, R and C, and no others, name boosters, and the cell a
/// booster's letter is laid out as reads back as that same letter.
pub proof fn lemma_booster_letters(letter: u8)
    ensures
        booster_code(letter) is Some <==> (letter == 66 || letter == 70 || letter == 76 || letter == 88 || letter == 82 || letter
            == 67),
        booster_code(letter) is Some ==> glyph_of(grid_cell(booster_code(letter)->0)) == letter,
{
}

} // verus!
