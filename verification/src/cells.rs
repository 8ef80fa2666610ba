//! The cells, points and sight lines shared by the boosted positions: a cell
//! is wrapped or not and holds a wall, a booster or nothing.
use vstd::prelude::*;
use crate::grid::{idx, in_grid, lemma_index, lemma_quot_le, REACH};

verus! {

#[derive(Clone, Copy, PartialEq, Eq, Structural, Debug)]
pub struct Cell {
    pub is_wrapped: bool,
    pub state: CellState,
}

#[derive(Clone, Copy, PartialEq, Eq, Structural, Debug)]
pub enum CellState {
    Blank,
    Wall,
    B,
    F,
    L,
    X,
    R,
    C,
}

#[derive(Clone, Copy, PartialEq, Eq, Structural, Debug)]
pub struct Point {
    pub x: i32,
    pub y: i32,
}

/// A booster taken from a cell.
#[derive(Clone, Copy, PartialEq, Eq, Structural, Debug)]
pub enum BoostItem {
    B,
    F,
    L,
    R,
    C,
}

/// A point within reach of its worker.
pub open spec fn small(p: Point) -> bool {
    -REACH <= p.x <= REACH && -REACH <= p.y <= REACH
}

/// `p` turned by `direction` quarter turns.
pub open spec fn rotate_spec(p: Point, direction: int) -> (int, int) {
    if direction == 0 {
        (p.x as int, p.y as int)
    } else if direction == 1 {
        (-p.y, p.x as int)
    } else if direction == 2 {
        (-p.x, -p.y)
    } else {
        (p.y as int, -p.x)
    }
}

/// A quarter turn clockwise on the map, whose rows run downward: right
/// becomes down, down becomes left, left up and up right.
pub open spec fn quarter_clockwise(v: (int, int)) -> (int, int) {
    (-v.1, v.0)
}

/// Headings turn clockwise: at heading 0 an offset is itself, and each
/// heading turns it a quarter turn clockwise on the map from the one before,
/// so the arm ahead of a worker facing right is below it at heading 1.
pub proof fn lemma_rotate_clockwise(p: Point)
    ensures
        rotate_spec(p, 0) == (p.x as int, p.y as int),
        forall|d: int| 0 <= d < 4 ==> #[trigger] rotate_spec(p, (d + 1) % 4) == quarter_clockwise(rotate_spec(p, d)),
{
}

/// `p` turned back by `direction` quarter turns.
pub open spec fn counter_rotate_spec(p: Point, direction: int) -> (int, int) {
    if direction == 0 {
        (p.x as int, p.y as int)
    } else if direction == 1 {
        (p.y as int, -p.x)
    } else if direction == 2 {
        (-p.x, -p.y)
    } else {
        (-p.y, p.x as int)
    }
}

impl Point {
    /// The point turned by `direction` quarter turns.
    pub fn rotate(&self, direction: i32) -> (r: Point)
        requires
            0 <= direction < 4,
            self.x > i32::MIN,
            self.y > i32::MIN,
        ensures
            (r.x as int, r.y as int) == rotate_spec(*self, direction as int),
    {
        if direction == 0 {
            Point { x: self.x, y: self.y }
        } else if direction == 1 {
            Point { x: -self.y, y: self.x }
        } else if direction == 2 {
            Point { x: -self.x, y: -self.y }
        } else {
            Point { x: self.y, y: -self.x }
        }
    }

    /// The point turned back by `direction` quarter turns.
    pub fn counter_rotate(&self, direction: i32) -> (r: Point)
        requires
            0 <= direction < 4,
            self.x > i32::MIN,
            self.y > i32::MIN,
        ensures
            (r.x as int, r.y as int) == counter_rotate_spec(*self, direction as int),
    {
        if direction == 0 {
            Point { x: self.x, y: self.y }
        } else if direction == 1 {
            Point { x: self.y, y: -self.x }
        } else if direction == 2 {
            Point { x: -self.x, y: -self.y }
        } else {
            Point { x: -self.y, y: self.x }
        }
    }
}

/// Turning by some quarter turns and back gives the point back.
pub proof fn lemma_counter_rotate_undoes_rotate(p: Point, direction: int)
    requires
        0 <= direction < 4,
        small(p),
    ensures
        ({
            let r = rotate_spec(p, direction);
            counter_rotate_spec(Point { x: r.0 as i32, y: r.1 as i32 }, direction) == (p.x as int, p.y as int)
        }),
        ({
            let r = counter_rotate_spec(p, direction);
            rotate_spec(Point { x: r.0 as i32, y: r.1 as i32 }, direction) == (p.x as int, p.y as int)
        }),
{
}

/// The grid has a size whose indices fit in 32 bits.
pub open spec fn grid_ok(width: int, height: int, len: int) -> bool {
    &&& 0 < width
    &&& 0 < height
    &&& width * height <= i32::MAX
    &&& width + REACH <= i32::MAX
    &&& height + REACH <= i32::MAX
    &&& len == width * height
}

pub open spec fn cell_at(map: Seq<Cell>, x: int, y: int, width: int) -> Cell {
    map[idx(x, y, width)]
}

pub open spec fn wall_at(map: Seq<Cell>, x: int, y: int, width: int) -> bool {
    cell_at(map, x, y, width).state == CellState::Wall
}

/// `(x, y)` is outside the grid or a wall.
pub open spec fn out_spec(map: Seq<Cell>, width: int, height: int, x: int, y: int) -> bool {
    !in_grid(x, y, width, height) || wall_at(map, x, y, width)
}

/// `(x, y)` is outside the grid, a wall, or wrapped.
pub open spec fn wrapped_spec(map: Seq<Cell>, width: int, height: int, x: int, y: int) -> bool {
    out_spec(map, width, height, x, y) || cell_at(map, x, y, width).is_wrapped
}

pub open spec fn abs_int(v: int) -> int {
    if v < 0 {
        -v
    } else {
        v
    }
}

/// At step `i` of `d`, the segment from the centre of cell `a0` to that of
/// `a1` along the other axis crosses into a new cell strictly inside a cell
/// edge; this is that cell's coordinate across the segment.
pub open spec fn cross_pos(a0: int, a1: int, d: int, i: int) -> int {
    (d * (2 * a0 + 1) + (2 * i + 1) * (a1 - a0)) / (2 * d)
}

pub open spec fn cross_inside(a0: int, a1: int, d: int, i: int) -> bool {
    (d * (2 * a0 + 1) + (2 * i + 1) * (a1 - a0)) % (2 * d) != 0
}

/// The segment from `(bx, by)` to `(tx, ty)` is steep, and at row step `iy`
/// it passes between two cells one of which is a wall.
pub open spec fn row_blocked(map: Seq<Cell>, width: int, x0: int, y0: int, x1: int, dy: int, iy: int) -> bool {
    cross_inside(x0, x1, dy, iy) && (wall_at(map, cross_pos(x0, x1, dy, iy), y0 + iy, width) || wall_at(
        map,
        cross_pos(x0, x1, dy, iy),
        y0 + iy + 1,
        width,
    ))
}

/// The flat segment at column step `ix` passes between two cells one of
/// which is a wall.
pub open spec fn col_blocked(map: Seq<Cell>, width: int, x0: int, y0: int, y1: int, dx: int, ix: int) -> bool {
    cross_inside(y0, y1, dx, ix) && (wall_at(map, x0 + ix, cross_pos(y0, y1, dx, ix), width) || wall_at(
        map,
        x0 + ix + 1,
        cross_pos(y0, y1, dx, ix),
        width,
    ))
}

pub open spec fn rows_clear(map: Seq<Cell>, width: int, x0: int, y0: int, x1: int, dy: int) -> bool {
    forall|iy: int| 0 <= iy < dy ==> !#[trigger] row_blocked(map, width, x0, y0, x1, dy, iy)
}

pub open spec fn cols_clear(map: Seq<Cell>, width: int, x0: int, y0: int, y1: int, dx: int) -> bool {
    forall|ix: int| 0 <= ix < dx ==> !#[trigger] col_blocked(map, width, x0, y0, y1, dx, ix)
}

/// Whether a manipulator at `(tx, ty)` is in sight of the worker at
/// `(bx, by)`: walking the segment between the cell centres, every crossing
/// from one cell to the next that does not pass exactly through a grid
/// corner must not touch a wall.
pub open spec fn sight(map: Seq<Cell>, width: int, bx: int, by: int, tx: int, ty: int) -> bool {
    let dx = abs_int(tx - bx);
    let dy = abs_int(ty - by);
    if dx < dy {
        let x0 = if by < ty { bx } else { tx };
        let y0 = if by < ty { by } else { ty };
        let x1 = if by < ty { tx } else { bx };
        rows_clear(map, width, x0, y0, x1, dy)
    } else {
        let x0 = if bx < tx { bx } else { tx };
        let y0 = if bx < tx { by } else { ty };
        let y1 = if bx < tx { ty } else { by };
        cols_clear(map, width, x0, y0, y1, dx)
    }
}

/// Two maps of one size with walls at the same cells.
pub open spec fn same_walls(m1: Seq<Cell>, m2: Seq<Cell>) -> bool {
    &&& m1.len() == m2.len()
    &&& forall|i: int| 0 <= i < m1.len() ==> (#[trigger] m1[i].state == CellState::Wall <==> m2[i].state == CellState::Wall)
}

/// The crossing coordinate lies between the two end coordinates.
pub proof fn lemma_cross_pos_bounds(a0: int, a1: int, d: int, i: int)
    requires
        0 <= i < d,
        0 <= a0,
        0 <= a1,
    ensures
        0 <= d * (2 * a0 + 1) + (2 * i + 1) * (a1 - a0),
        a0 <= a1 ==> a0 <= cross_pos(a0, a1, d, i) <= a1,
        a1 < a0 ==> a1 <= cross_pos(a0, a1, d, i) <= a0,
{
    let den = 2 * d;
    let k = 2 * i + 1;
    let n = d * (2 * a0 + 1) + k * (a1 - a0);
    assert(d * (2 * a0 + 1) == a0 * den + d) by (nonlinear_arith)
        requires
            den == 2 * d,
    ;
    if a0 <= a1 {
        lemma_quot_le(k, a1 - a0, den);
        assert(0 <= k * (a1 - a0) < den * (a1 - a0) + den) by (nonlinear_arith)
            requires
                0 < k < den,
                a0 <= a1,
        ;
        assert(a0 * den <= n);
        assert(0 <= a0 * den) by (nonlinear_arith)
            requires
                0 <= a0,
                den > 0,
        ;
        assert(k * (a1 - a0) <= (den - 1) * (a1 - a0)) by (nonlinear_arith)
            requires
                0 < k < den,
                a0 <= a1,
        ;
        assert(n < (a1 + 1) * den) by (nonlinear_arith)
            requires
                n == a0 * den + d + k * (a1 - a0),
                k * (a1 - a0) <= (den - 1) * (a1 - a0),
                den == 2 * d,
                d > 0,
                a0 <= a1,
        ;
    } else {
        assert(k * (a1 - a0) <= 0 && -(k * (a1 - a0)) < den * (a0 - a1)) by (nonlinear_arith)
            requires
                0 < k < den,
                a1 < a0,
        ;
        assert(k * (a1 - a0) >= -((den - 1) * (a0 - a1))) by (nonlinear_arith)
            requires
                0 < k < den,
                a1 < a0,
        ;
        assert(a1 * den <= n) by (nonlinear_arith)
            requires
                n == a0 * den + d + k * (a1 - a0),
                k * (a1 - a0) >= -((den - 1) * (a0 - a1)),
                den == 2 * d,
                d > 0,
                a1 < a0,
        ;
        assert(0 <= a1 * den) by (nonlinear_arith)
            requires
                0 <= a1,
                den > 0,
        ;
        assert(n < (a0 + 1) * den) by (nonlinear_arith)
            requires
                n == a0 * den + d + k * (a1 - a0),
                k * (a1 - a0) <= 0,
                den == 2 * d,
                d > 0,
        ;
    }
    if a0 <= a1 {
        vstd::arithmetic::div_mod::lemma_div_is_ordered(a0 * den, n, den);
        vstd::arithmetic::div_mod::lemma_div_is_ordered(n, (a1 + 1) * den - 1, den);
        vstd::arithmetic::div_mod::lemma_div_by_multiple(a0, den);
        lemma_div_below(a1 + 1, den);
    } else {
        vstd::arithmetic::div_mod::lemma_div_is_ordered(a1 * den, n, den);
        vstd::arithmetic::div_mod::lemma_div_is_ordered(n, (a0 + 1) * den - 1, den);
        vstd::arithmetic::div_mod::lemma_div_by_multiple(a1, den);
        lemma_div_below(a0 + 1, den);
    }
}

proof fn lemma_div_below(q: int, den: int)
    requires
        den > 0,
    ensures
        (q * den - 1) / den == q - 1,
{
    assert(q * den - 1 == (q - 1) * den + (den - 1)) by (nonlinear_arith);
    vstd::arithmetic::div_mod::lemma_fundamental_div_mod_converse(q * den - 1, den, q - 1, den - 1);
}

/// The index arithmetic of a cell of a map of at most `i32::MAX` cells
/// stays within 32 bits.
pub open spec fn index_ok(len: int, x: int, y: int, width: int) -> bool {
    &&& 0 <= x < width
    &&& 0 <= y
    &&& y * width + x < len
    &&& len <= i32::MAX
}

pub proof fn lemma_grid_index_ok(width: int, height: int, len: int, x: int, y: int)
    requires
        grid_ok(width, height, len),
        in_grid(x, y, width, height),
    ensures
        index_ok(len, x, y, width),
        0 <= idx(x, y, width) < len,
{
    lemma_index(x, y, width, height);
}

proof fn lemma_index_ok(len: int, x: int, y: int, width: int)
    requires
        index_ok(len, x, y, width),
    ensures
        0 <= y * width <= y * width + x <= i32::MAX,
{
    assert(0 <= y * width) by (nonlinear_arith)
        requires
            0 <= y,
            0 < width,
    ;
}

pub fn get_at(map: &Vec<Cell>, x: i32, y: i32, width: i32) -> (r: &Cell)
    requires
        index_ok(map@.len() as int, x as int, y as int, width as int),
    ensures
        *r == cell_at(map@, x as int, y as int, width as int),
{
    proof {
        lemma_index_ok(map@.len() as int, x as int, y as int, width as int);
    }
    &map[(y * width + x) as usize]
}

pub fn get_mut_at(map: &mut Vec<Cell>, x: i32, y: i32, width: i32) -> (r: &mut Cell)
    requires
        index_ok(old(map)@.len() as int, x as int, y as int, width as int),
    ensures
        *r == cell_at(old(map)@, x as int, y as int, width as int),
        final(map)@ == old(map)@.update(idx(x as int, y as int, width as int), *final(r)),
{
    proof {
        lemma_index_ok(map@.len() as int, x as int, y as int, width as int);
    }
    &mut map[(y * width + x) as usize]
}

/// Wraps the cell at `(x, y)` if it is not wrapped yet, and says whether it
/// did.
pub fn wrap_at(map: &mut Vec<Cell>, x: i32, y: i32, width: i32) -> (r: bool)
    requires
        index_ok(old(map)@.len() as int, x as int, y as int, width as int),
    ensures
        r == !cell_at(old(map)@, x as int, y as int, width as int).is_wrapped,
        r ==> final(map)@ == old(map)@.update(
            idx(x as int, y as int, width as int),
            Cell { is_wrapped: true, ..cell_at(old(map)@, x as int, y as int, width as int) },
        ),
        !r ==> final(map)@ == old(map)@,
{
    let cell = get_mut_at(map, x, y, width);
    if !cell.is_wrapped {
        cell.is_wrapped = true;
        true
    } else {
        proof {
            assert(map@ =~= old(map)@);
        }
        false
    }
}

/// Walls equal on two maps give the same sight lines.
pub proof fn lemma_sight_same_walls(m1: Seq<Cell>, m2: Seq<Cell>, width: int, height: int, bx: int, by: int, tx: int, ty: int)
    requires
        same_walls(m1, m2),
        grid_ok(width, height, m1.len() as int),
        in_grid(bx, by, width, height),
        in_grid(tx, ty, width, height),
    ensures
        sight(m1, width, bx, by, tx, ty) == sight(m2, width, bx, by, tx, ty),
{
    let dx = abs_int(tx - bx);
    let dy = abs_int(ty - by);
    if dx < dy {
        let x0 = if by < ty { bx } else { tx };
        let y0 = if by < ty { by } else { ty };
        let x1 = if by < ty { tx } else { bx };
        assert forall|iy: int| 0 <= iy < dy implies row_blocked(m1, width, x0, y0, x1, dy, iy) == row_blocked(
            m2,
            width,
            x0,
            y0,
            x1,
            dy,
            iy,
        ) by {
            lemma_cross_pos_bounds(x0, x1, dy, iy);
            let c = cross_pos(x0, x1, dy, iy);
            lemma_index(c, y0 + iy, width, height);
            lemma_index(c, y0 + iy + 1, width, height);
        }
        assert(rows_clear(m1, width, x0, y0, x1, dy) == rows_clear(m2, width, x0, y0, x1, dy));
    } else {
        let x0 = if bx < tx { bx } else { tx };
        let y0 = if bx < tx { by } else { ty };
        let y1 = if bx < tx { ty } else { by };
        assert forall|ix: int| 0 <= ix < dx implies col_blocked(m1, width, x0, y0, y1, dx, ix) == col_blocked(
            m2,
            width,
            x0,
            y0,
            y1,
            dx,
            ix,
        ) by {
            lemma_cross_pos_bounds(y0, y1, dx, ix);
            let c = cross_pos(y0, y1, dx, ix);
            lemma_index(x0 + ix, c, width, height);
            lemma_index(x0 + ix + 1, c, width, height);
        }
        assert(cols_clear(m1, width, x0, y0, y1, dx) == cols_clear(m2, width, x0, y0, y1, dx));
    }
}

/// Whether the cell `(tx, ty)` is in sight of `(bx, by)` on `map`.
pub fn in_sight(map: &Vec<Cell>, width: i32, height: i32, bx: i32, by: i32, tx: i32, ty: i32) -> (r: bool)
    requires
        grid_ok(width as int, height as int, map@.len() as int),
        in_grid(bx as int, by as int, width as int, height as int),
        in_grid(tx as int, ty as int, width as int, height as int),
    ensures
        r == sight(map@, width as int, bx as int, by as int, tx as int, ty as int),
{
    let dx = if tx < bx { bx - tx } else { tx - bx };
    let dy = if ty < by { by - ty } else { ty - by };
    proof {
        assert(0 <= (width as int) * (height as int));
        assert((width as int) * (height as int) <= i32::MAX);
    }
    if dx < dy {
        let x0 = if by < ty { bx } else { tx };
        let y0 = if by < ty { by } else { ty };
        let x1 = if by < ty { tx } else { bx };
        let d: i64 = dy as i64;
        let den: i64 = 2 * d;
        proof {
            assert(0 <= d * (2 * x0 + 1) <= 2 * (height as int) * (width as int)) by (nonlinear_arith)
                requires
                    0 <= d < height,
                    0 <= x0 < width,
            ;
            assert(2 * (height as int) * (width as int) <= 2 * i32::MAX) by (nonlinear_arith)
                requires
                    (width as int) * (height as int) <= i32::MAX,
            ;
        }
        let base: i64 = d * (2 * (x0 as i64) + 1);
        let diff: i64 = x1 as i64 - x0 as i64;
        let mut iy: i32 = 0;
        while iy < dy
            invariant
                grid_ok(width as int, height as int, map@.len() as int),
                0 <= iy <= dy,
                0 <= dx < dy,
                dy == abs_int(ty - by),
                dx == abs_int(tx - bx),
                d == dy,
                den == 2 * d,
                base == d * (2 * (x0 as int) + 1),
                0 <= base <= 2 * (height as int) * (width as int),
                diff == x1 - x0,
                x0 == (if by < ty { bx } else { tx }),
                y0 == (if by < ty { by } else { ty }),
                x1 == (if by < ty { tx } else { bx }),
                in_grid(x0 as int, y0 as int, width as int, height as int),
                in_grid(x1 as int, (y0 + dy) as int, width as int, height as int),
                forall|k: int| 0 <= k < iy ==> !#[trigger] row_blocked(map@, width as int, x0 as int, y0 as int, x1 as int, dy as int, k),
            decreases dy - iy,
        {
            let k: i64 = 2 * (iy as i64) + 1;
            proof {
                assert(-(2 * (height as int) * (width as int)) <= k * diff <= 2 * (height as int) * (width as int)) by (nonlinear_arith)
                    requires
                        0 < k < den,
                        den == 2 * d,
                        d < height,
                        -(width as int) < diff < width,
                ;
                assert(2 * (height as int) * (width as int) <= 2 * i32::MAX) by (nonlinear_arith)
                    requires
                        (width as int) * (height as int) <= i32::MAX,
                ;
            }
            let n: i64 = base + k * diff;
            proof {
                lemma_cross_pos_bounds(x0 as int, x1 as int, dy as int, iy as int);
                assert(n == dy * (2 * x0 + 1) + (2 * iy + 1) * (x1 - x0));
            }
            if n % den != 0 {
                let c: i64 = n / den;
                proof {
                    assert(c == cross_pos(x0 as int, x1 as int, dy as int, iy as int));
                }
                let c = c as i32;
                proof {
                    lemma_grid_index_ok(width as int, height as int, map@.len() as int, c as int, (y0 + iy) as int);
                    lemma_grid_index_ok(width as int, height as int, map@.len() as int, c as int, (y0 + iy + 1) as int);
                }
                if get_at(map, c, y0 + iy, width).state == CellState::Wall || get_at(map, c, y0 + iy + 1, width).state
                    == CellState::Wall {
                    assert(row_blocked(map@, width as int, x0 as int, y0 as int, x1 as int, dy as int, iy as int));
                    assert(!rows_clear(map@, width as int, x0 as int, y0 as int, x1 as int, dy as int));
                    return false;
                }
            }
            assert(!row_blocked(map@, width as int, x0 as int, y0 as int, x1 as int, dy as int, iy as int));
            iy = iy + 1;
        }
        assert(rows_clear(map@, width as int, x0 as int, y0 as int, x1 as int, dy as int));
    } else {
        let x0 = if bx < tx { bx } else { tx };
        let y0 = if bx < tx { by } else { ty };
        let y1 = if bx < tx { ty } else { by };
        let d: i64 = dx as i64;
        let den: i64 = 2 * d;
        proof {
            assert(0 <= d * (2 * y0 + 1) <= 2 * (height as int) * (width as int)) by (nonlinear_arith)
                requires
                    0 <= d < width,
                    0 <= y0 < height,
            ;
            assert(2 * (height as int) * (width as int) <= 2 * i32::MAX) by (nonlinear_arith)
                requires
                    (width as int) * (height as int) <= i32::MAX,
            ;
        }
        let base: i64 = d * (2 * (y0 as i64) + 1);
        let diff: i64 = y1 as i64 - y0 as i64;
        let mut ix: i32 = 0;
        while ix < dx
            invariant
                grid_ok(width as int, height as int, map@.len() as int),
                0 <= ix <= dx,
                0 <= dy <= dx,
                dy == abs_int(ty - by),
                dx == abs_int(tx - bx),
                d == dx,
                den == 2 * d,
                base == d * (2 * (y0 as int) + 1),
                0 <= base <= 2 * (height as int) * (width as int),
                diff == y1 - y0,
                x0 == (if bx < tx { bx } else { tx }),
                y0 == (if bx < tx { by } else { ty }),
                y1 == (if bx < tx { ty } else { by }),
                in_grid(x0 as int, y0 as int, width as int, height as int),
                in_grid((x0 + dx) as int, y1 as int, width as int, height as int),
                forall|k: int| 0 <= k < ix ==> !#[trigger] col_blocked(map@, width as int, x0 as int, y0 as int, y1 as int, dx as int, k),
            decreases dx - ix,
        {
            let k: i64 = 2 * (ix as i64) + 1;
            proof {
                assert(-(2 * (height as int) * (width as int)) <= k * diff <= 2 * (height as int) * (width as int)) by (nonlinear_arith)
                    requires
                        0 < k < den,
                        den == 2 * d,
                        d < width,
                        -(height as int) < diff < height,
                ;
                assert(2 * (height as int) * (width as int) <= 2 * i32::MAX) by (nonlinear_arith)
                    requires
                        (width as int) * (height as int) <= i32::MAX,
                ;
            }
            let n: i64 = base + k * diff;
            proof {
                lemma_cross_pos_bounds(y0 as int, y1 as int, dx as int, ix as int);
                assert(n == dx * (2 * y0 + 1) + (2 * ix + 1) * (y1 - y0));
            }
            if n % den != 0 {
                let c: i64 = n / den;
                proof {
                    assert(c == cross_pos(y0 as int, y1 as int, dx as int, ix as int));
                }
                let c = c as i32;
                proof {
                    lemma_grid_index_ok(width as int, height as int, map@.len() as int, (x0 + ix) as int, c as int);
                    lemma_grid_index_ok(width as int, height as int, map@.len() as int, (x0 + ix + 1) as int, c as int);
                }
                if get_at(map, x0 + ix, c, width).state == CellState::Wall || get_at(map, x0 + ix + 1, c, width).state
                    == CellState::Wall {
                    assert(col_blocked(map@, width as int, x0 as int, y0 as int, y1 as int, dx as int, ix as int));
                    assert(!cols_clear(map@, width as int, x0 as int, y0 as int, y1 as int, dx as int));
                    return false;
                }
            }
            assert(!col_blocked(map@, width as int, x0 as int, y0 as int, y1 as int, dx as int, ix as int));
            ix = ix + 1;
        }
        assert(cols_clear(map@, width as int, x0 as int, y0 as int, y1 as int, dx as int));
    }
    true
}

/// The booster a letter of a purchase list names: `B`, `F`, `L`, `R` or
/// `C`; other characters name none.
pub open spec fn buy_item(c: u8) -> Option<BoostItem> {
    if c == 66 {
        Some(BoostItem::B)
    } else if c == 70 {
        Some(BoostItem::F)
    } else if c == 76 {
        Some(BoostItem::L)
    } else if c == 82 {
        Some(BoostItem::R)
    } else if c == 67 {
        Some(BoostItem::C)
    } else {
        None
    }
}

/// The boosters a purchase list names, in order.
pub open spec fn buy_items(s: Seq<u8>) -> Seq<BoostItem>
    decreases s.len(),
{
    if s.len() == 0 {
        Seq::empty()
    } else {
        buy_items(s.drop_last()) + match buy_item(s.last()) {
            Some(b) => seq![b],
            None => Seq::<BoostItem>::empty(),
        }
    }
}

/// Reads a purchase list: each booster letter adds that booster, anything
/// else is skipped.
pub fn parse_buy(text: &[u8]) -> (r: Vec<BoostItem>)
    ensures
        r@ == buy_items(text@),
{
    let mut r: Vec<BoostItem> = Vec::new();
    let n = text.len();
    for i in 0..n
        invariant
            n == text@.len(),
            r@ == buy_items(text@.take(i as int)),
    {
        assert(text@.take(i + 1).drop_last() =~= text@.take(i as int));
        let c = text[i];
        if c == 66 {
            r.push(BoostItem::B);
        } else if c == 70 {
            r.push(BoostItem::F);
        } else if c == 76 {
            r.push(BoostItem::L);
        } else if c == 82 {
            r.push(BoostItem::R);
        } else if c == 67 {
            r.push(BoostItem::C);
        }
        assert(r@ =~= buy_items(text@.take(i + 1)));
    }
    assert(text@.take(n as int) =~= text@);
    r
}

/// The character a text log shows for a cell: `#` for a wall, `-` for a
/// wrapped and `.` for an unwrapped plain cell, else the booster's letter.
pub open spec fn glyph_of(c: Cell) -> u8 {
    match c.state {
        CellState::Wall => 35,
        CellState::Blank => if c.is_wrapped { 45 } else { 46 },
        CellState::B => 66,
        CellState::F => 70,
        CellState::L => 76,
        CellState::R => 82,
        CellState::X => 88,
        CellState::C => 67,
    }
}

/// The character a text log shows for `c`.
pub fn glyph(c: &Cell) -> (r: u8)
    ensures
        r == glyph_of(*c),
{
    match c.state {
        CellState::Wall => 35,
        CellState::Blank => if c.is_wrapped { 45 } else { 46 },
        CellState::B => 66,
        CellState::F => 70,
        CellState::L => 76,
        CellState::R => 82,
        CellState::X => 88,
        CellState::C => 67,
    }
}

/// The characters of a map's rows, a worker at `(bx, by)` shown as `@`.
pub open spec fn map_glyphs(map: Seq<Cell>, width: int, height: int, bx: int, by: int) -> Seq<u8> {
    Seq::new(
        (width * height) as nat,
        |i: int| if i % width == bx && i / width == by { 64u8 } else { glyph_of(map[i]) },
    )
}

/// The characters of a map's rows, the worker at `(bx, by)` shown as `@`:
/// character `y * width + x` shows cell `(x, y)`.
pub fn glyph_rows(map: &Vec<Cell>, width: i32, height: i32, bx: i32, by: i32) -> (r: Vec<u8>)
    requires
        0 < width,
        0 <= height,
        width * height <= map@.len(),
    ensures
        r@ == map_glyphs(map@, width as int, height as int, bx as int, by as int),
{
    let len = map.len();
    assert(width * height <= len);
    assert((width as usize) * (height as usize) == width * height) by (nonlinear_arith)
        requires
            0 < width,
            0 <= height,
    ;
    let n = (width as usize) * (height as usize);
    let w = width as usize;
    let mut r: Vec<u8> = Vec::new();
    for i in 0..n
        invariant
            n == width * height,
            w == width,
            0 < width,
            n <= map@.len(),
            r@.len() == i,
            forall|k: int| 0 <= k < i ==> #[trigger] r@[k] == (if k % (width as int) == bx && k / (width as int) == by {
                64u8
            } else {
                glyph_of(map@[k])
            }),
    {
        assert(i / w <= height) by (nonlinear_arith)
            requires
                i < w * height,
                0 < w,
        ;
        assert(i % w < w);
        let x = (i % w) as i32;
        let y = (i / w) as i32;
        assert(x as int == (i as int) % (width as int) && y as int == (i as int) / (width as int));
        if x == bx && y == by {
            r.push(64);
        } else {
            r.push(glyph(&map[i]));
        }
    }
    assert(r@ =~= map_glyphs(map@, width as int, height as int, bx as int, by as int));
    r
}

} // verus!
