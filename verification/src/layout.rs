//! Turning contours into a grid: each vertical edge of a contour flips the
//! cells it runs along, a row is inside wherever an odd number of flips lie
//! at or left of a cell, and rows are numbered from the top once done.
use vstd::prelude::*;
use crate::desc::{nat_booster, nat_contour, nat_point, Desc, DescError, DescModel};

verus! {

/// The corners of a contour in the order the edges are read: starting at
/// the second corner where the first edge is horizontal, so that the edges
/// read in pairs of corners are the vertical ones.
pub open spec fn corners(points: Seq<usize>) -> Seq<usize> {
    if points.len() >= 4 && points[1] == points[3] {
        points.skip(2) + points.take(2)
    } else {
        points
    }
}

/// Edge `c` of `pts` (four numbers an edge: column, row, column, row) can
/// be flipped in a map of `len` cells, `width` to a row: it lies right of
/// the grid, runs along no cell, or its last cell lies in the map.
pub open spec fn edge_fits(pts: Seq<usize>, c: int, width: int, len: int) -> bool {
    let x0 = pts[4 * c] as int;
    let ya = pts[4 * c + 1] as int;
    let yb = pts[4 * c + 3] as int;
    let top = if ya < yb { yb } else { ya };
    x0 >= width || ya == yb || (top - 1) * width + x0 < len
}

/// Every edge of `pts` can be flipped in the map.
pub open spec fn edges_fit(pts: Seq<usize>, width: int, len: int) -> bool {
    forall|c: int| 0 <= c < pts.len() / 4 ==> #[trigger] edge_fits(pts, c, width, len)
}

/// Whether the vertical edge from `(x0, y0)` to `(x0, y1)` runs along cell
/// `(x, y)`.
pub open spec fn along(x0: int, y0: int, y1: int, x: int, y: int) -> bool {
    x0 == x && (if y0 <= y1 { y0 <= y < y1 } else { y1 <= y < y0 })
}

/// How many of the first `k` edges, read as four numbers each, run along
/// cell `(x, y)`.
pub open spec fn crossings(pts: Seq<usize>, k: int, x: int, y: int) -> nat
    decreases k,
{
    if k <= 0 {
        0
    } else {
        crossings(pts, k - 1, x, y) + if along(
            pts[4 * (k - 1)] as int,
            pts[4 * (k - 1) + 1] as int,
            pts[4 * (k - 1) + 3] as int,
            x,
            y,
        ) {
            1nat
        } else {
            0nat
        }
    }
}

/// Whether cell `i` lies on the edge at column `x0` between rows `y0` and
/// `y`, as far as it was flipped.
pub open spec fn partial(i: int, width: int, x0: int, y0: int, y: int) -> nat {
    if i % width == x0 && y0 <= i / width && i / width < y {
        1
    } else {
        0
    }
}

/// `v` flipped when `c` is odd.
pub open spec fn flipped(v: i32, c: nat) -> i32 {
    if c % 2 == 1 {
        v ^ 1
    } else {
        v
    }
}

proof fn lemma_flip_twice(v: i32)
    ensures
        (v ^ 1) ^ 1 == v,
{
    assert((v ^ 1) ^ 1 == v) by (bit_vector);
}

proof fn lemma_cell_of(y: int, x: int, w: int)
    requires
        0 <= x < w,
        0 <= y,
    ensures
        (y * w + x) % w == x,
        (y * w + x) / w == y,
{
    assert((y * w + x) % w == x && (y * w + x) / w == y) by (nonlinear_arith)
        requires
            0 <= x < w,
            0 <= y,
    ;
}

/// Flips the cells along the vertical edges of the contour `points`, read
/// as `corners` orders them; edges right of the grid are skipped, so a grid
/// of width 0 is left as it is. `points` is left in that order.
pub fn mark_map(map: &mut Vec<i32>, points: &mut Vec<usize>, width: usize)
    requires
        old(points)@.len() >= 4,
        old(points)@.len() % 4 == 0,
        edges_fit(corners(old(points)@), width as int, old(map)@.len() as int),
    ensures
        final(points)@ == corners(old(points)@),
        final(map)@.len() == old(map)@.len(),
        width == 0 ==> final(map)@ == old(map)@,
        width > 0 ==> forall|i: int|
            0 <= i < old(map)@.len() ==> #[trigger] final(map)@[i] == flipped(
                old(map)@[i],
                crossings(corners(old(points)@), (final(points)@.len() / 4) as int, i % width as int, i / width as int),
            ),
{
    let ghost orig = map@;
    let ghost p0 = points@;
    if points[1] == points[3] {
        let p = points.remove(0);
        points.push(p);
        let p = points.remove(0);
        points.push(p);
        proof {
            assert(points@ =~= p0.skip(2) + p0.take(2));
        }
    }
    let ghost pts = points@;
    assert(pts == corners(p0));
    if width == 0 {
        return;
    }
    let total = points.len();
    let size = map.len();
    let n = total / 4;
    for c in 0..n
        invariant
            n == pts.len() / 4,
            pts.len() <= usize::MAX,
            orig.len() <= usize::MAX,
            pts.len() % 4 == 0,
            points@ == pts,
            width > 0,
            map@.len() == orig.len(),
            edges_fit(pts, width as int, orig.len() as int),
            forall|i: int|
                0 <= i < orig.len() ==> #[trigger] map@[i] == flipped(orig[i], crossings(pts, c as int, i % width as int, i / width as int)),
    {
        assert(4 * c + 3 < pts.len()) by (nonlinear_arith)
            requires
                c < n,
                n == pts.len() / 4,
                pts.len() % 4 == 0,
        ;
        let x0 = points[4 * c];
        let mut y0 = points[4 * c + 1];
        let mut y1 = points[4 * c + 3];
        if y0 > y1 {
            let t = y0;
            y0 = y1;
            y1 = t;
        }
        assert(edge_fits(pts, c as int, width as int, orig.len() as int));
        if width <= x0 || y0 == y1 {
            proof {
                assert forall|i: int| 0 <= i < orig.len() implies #[trigger] map@[i] == flipped(
                    orig[i],
                    crossings(pts, c + 1, i % width as int, i / width as int),
                ) by {
                    if width <= x0 {
                        assert(i % width as int != x0 as int);
                    }
                }
            }
        } else {
        assert((y1 - 1) * width + x0 < orig.len());
        for y in y0..y1
            invariant
                n == pts.len() / 4,
                pts.len() <= usize::MAX,
                orig.len() <= usize::MAX,
                c < n,
                pts.len() % 4 == 0,
                points@ == pts,
                width > 0,
                x0 < width,
                x0 == pts[4 * c],
                y0 <= y1,
                (y0 == pts[4 * c + 1] && y1 == pts[4 * c + 3]) || (y0 == pts[4 * c + 3] && y1 == pts[4 * c + 1]),
                (y1 - 1) * width + x0 < orig.len(),
                map@.len() == orig.len(),
                forall|i: int|
                    0 <= i < orig.len() ==> #[trigger] map@[i] == flipped(
                        orig[i],
                        crossings(pts, c as int, i % width as int, i / width as int) + partial(i, width as int, x0 as int, y0 as int, y as int),
                    ),
        {
            assert(y * width + x0 <= (y1 - 1) * width + x0) by (nonlinear_arith)
                requires
                    y < y1,
            ;
            let j = y * width + x0;
            let v = map[j];
            map.set(j, v ^ 1);
            proof {
                lemma_cell_of(y as int, x0 as int, width as int);
                lemma_flip_twice(orig[j as int]);
                assert forall|i: int| 0 <= i < orig.len() implies #[trigger] map@[i] == flipped(
                    orig[i],
                    crossings(pts, c as int, i % width as int, i / width as int) + partial(i, width as int, x0 as int, y0 as int, y + 1),
                ) by {
                    if i != j {
                        if i % width as int == x0 && i / width as int == y {
                            assert(i == (i / width as int) * width + i % width as int) by (nonlinear_arith)
                                requires
                                    width > 0,
                            ;
                        }
                    }
                }
            }
        }
        proof {
            assert forall|i: int| 0 <= i < orig.len() implies #[trigger] map@[i] == flipped(
                orig[i],
                crossings(pts, c + 1, i % width as int, i / width as int),
            ) by {
                assert(4 * (c + 1 - 1) == 4 * c);
            }
        }
        }
    }
}

/// Puts the rows in the opposite order, so that row `y` comes from row
/// `height - 1 - y`; what lies past the `height` rows is left as it is.
pub fn reverse_map<T: Copy>(map: &mut Vec<T>, width: usize, height: usize)
    requires
        old(map)@.len() >= width * height,
    ensures
        final(map)@.len() == old(map)@.len(),
        forall|i: int| width * height <= i < old(map)@.len() ==> #[trigger] final(map)@[i] == old(map)@[i],
        forall|x: int, y: int|
            0 <= x < width && 0 <= y < height ==> #[trigger] final(map)@[y * width + x] == old(map)@[(height - 1 - y) * width + x],
{
    let ghost orig = map@;
    let size = map.len();
    let half = height / 2;
    for y0 in 0..half
        invariant
            half == height / 2,
            orig.len() >= width * height,
            orig.len() <= usize::MAX,
            map@.len() == orig.len(),
            forall|i: int| width * height <= i < orig.len() ==> #[trigger] map@[i] == orig[i],
            forall|x: int, y: int|
                0 <= x < width && 0 <= y < height ==> #[trigger] map@[y * width + x] == (if y < y0 || y >= height - y0 {
                    orig[(height - 1 - y) * width + x]
                } else {
                    orig[y * width + x]
                }),
    {
        let y1 = height - y0 - 1;
        for x in 0..width
            invariant
                half == height / 2,
                y0 < half,
                y1 == height - y0 - 1,
                orig.len() >= width * height,
                orig.len() <= usize::MAX,
                map@.len() == orig.len(),
                forall|i: int| width * height <= i < orig.len() ==> #[trigger] map@[i] == orig[i],
                forall|xx: int, y: int|
                    0 <= xx < width && 0 <= y < height ==> #[trigger] map@[y * width + xx] == (if y < y0 || y >= height - y0 || ((
                    y == y0 || y == y1) && xx < x) {
                        orig[(height - 1 - y) * width + xx]
                    } else {
                        orig[y * width + xx]
                    }),
        {
            proof {
                lemma_rows(x as int, y0 as int, y1 as int, width as int, height as int);
            }
            assert(y0 * width + x < orig.len() && y1 * width + x < orig.len());
            let a = y0 * width + x;
            let b = y1 * width + x;
            let va = map[a];
            let vb = map[b];
            map.set(a, vb);
            map.set(b, va);
            proof {
                assert forall|xx: int, y: int| 0 <= xx < width && 0 <= y < height implies #[trigger] map@[y * width + xx] == (if y < y0
                    || y >= height - y0 || ((y == y0 || y == y1) && xx < x + 1) {
                    orig[(height - 1 - y) * width + xx]
                } else {
                    orig[y * width + xx]
                }) by {
                    lemma_cell_distinct(xx, y, x as int, y0 as int, width as int, height as int);
                    lemma_cell_distinct(xx, y, x as int, y1 as int, width as int, height as int);
                }
            }
        }
    }
    proof {
        assert forall|x: int, y: int| 0 <= x < width && 0 <= y < height implies #[trigger] map@[y * width + x] == orig[(height - 1 - y)
            * width + x] by {
            if !(y < half || y >= height - half) {
                assert(y == height - 1 - y);
            }
        }
    }
}

proof fn lemma_rows(x: int, y0: int, y1: int, w: int, h: int)
    requires
        0 <= x < w,
        0 <= y0 < h / 2,
        y1 == h - y0 - 1,
    ensures
        0 <= y0 * w + x < w * h,
        0 <= y1 * w + x < w * h,
        y0 < y1,
{
    assert(0 <= y0 * w + x < w * h) by (nonlinear_arith)
        requires
            0 <= x < w,
            0 <= y0 < h,
    ;
    assert(0 <= y1 * w + x < w * h) by (nonlinear_arith)
        requires
            0 <= x < w,
            0 <= y1 < h,
    ;
}

proof fn lemma_cell_distinct(x1: int, y1: int, x2: int, y2: int, w: int, h: int)
    requires
        0 <= x1 < w,
        0 <= x2 < w,
        0 <= y1 < h,
        0 <= y2 < h,
    ensures
        (y1 * w + x1 == y2 * w + x2) == (x1 == x2 && y1 == y2),
        0 <= y1 * w + x1 < w * h,
{
    crate::grid::lemma_index(x1, y1, w, h);
    if y1 * w + x1 == y2 * w + x2 {
        crate::grid::lemma_index_injective(x1, y1, x2, y2, w);
    }
}


/// The number of cells of row `y`, from column 0 to column `x`, that hold
/// a 1.
pub open spec fn ones_before(map: Seq<i32>, width: int, y: int, x: int) -> nat
    decreases x + 1,
{
    if x < 0 {
        0
    } else {
        ones_before(map, width, y, x - 1) + if map[y * width + x] == 1 {
            1nat
        } else {
            0nat
        }
    }
}

/// Fills each row: a cell is inside, 1, where an odd number of cells at or
/// left of it in its row hold a 1, and outside, 0, elsewhere.
pub fn fill_rows(map: &mut Vec<i32>, width: usize, height: usize)
    requires
        old(map)@.len() == width * height,
    ensures
        final(map)@.len() == old(map)@.len(),
        forall|x: int, y: int|
            0 <= x < width && 0 <= y < height ==> #[trigger] final(map)@[y * width + x] == (if ones_before(
                old(map)@,
                width as int,
                y,
                x,
            ) % 2 == 1 {
                1i32
            } else {
                0i32
            }),
{
    let ghost orig = map@;
    let size = map.len();
    for y in 0..height
        invariant
            orig.len() == width * height,
            orig.len() <= usize::MAX,
            map@.len() == orig.len(),
            forall|xx: int, yy: int|
                0 <= xx < width && 0 <= yy < height ==> #[trigger] map@[yy * width + xx] == if yy < y {
                    if ones_before(orig, width as int, yy, xx) % 2 == 1 {
                        1i32
                    } else {
                        0i32
                    }
                } else {
                    orig[yy * width + xx]
                },
    {
        let mut flag: i32 = 0;
        for x in 0..width
            invariant
                orig.len() == width * height,
                orig.len() <= usize::MAX,
                map@.len() == orig.len(),
                y < height,
                flag == if ones_before(orig, width as int, y as int, x - 1) % 2 == 1 {
                    1i32
                } else {
                    0i32
                },
                forall|xx: int, yy: int|
                    0 <= xx < width && 0 <= yy < height ==> #[trigger] map@[yy * width + xx] == if yy < y || (yy == y && xx < x) {
                        if ones_before(orig, width as int, yy, xx) % 2 == 1 {
                            1i32
                        } else {
                            0i32
                        }
                    } else {
                        orig[yy * width + xx]
                    },
        {
            proof {
                lemma_cell_distinct(x as int, y as int, x as int, y as int, width as int, height as int);
            }
            assert(y * width + x < orig.len());
            let j = y * width + x;
            proof {
                assert(orig[j as int] == map@[j as int]);
            }
            if map[j] == 1 {
                flag = if flag == 1 { 0 } else { 1 };
            }
            assert(flag == if ones_before(orig, width as int, y as int, x as int) % 2 == 1 {
                1i32
            } else {
                0i32
            });
            map.set(j, flag);
            proof {
                assert forall|xx: int, yy: int| 0 <= xx < width && 0 <= yy < height implies #[trigger] map@[yy * width + xx] == if yy < y
                    || (yy == y && xx < x + 1) {
                    if ones_before(orig, width as int, yy, xx) % 2 == 1 {
                        1i32
                    } else {
                        0i32
                    }
                } else {
                    orig[yy * width + xx]
                } by {
                    lemma_cell_distinct(xx, yy, x as int, y as int, width as int, height as int);
                }
            }
        }
    }
}


/// The numbers of a contour: each point's column, then its row.
pub open spec fn flat(c: Seq<(nat, nat)>) -> Seq<usize> {
    Seq::new(2 * c.len(), |k: int| if k % 2 == 0 { c[k / 2].0 as usize } else { c[k / 2].1 as usize })
}

/// `map` with the cells along the vertical edges of contour `c` flipped.
pub open spec fn mark_spec(map: Seq<i32>, c: Seq<(nat, nat)>, width: int) -> Seq<i32> {
    let pts = corners(flat(c));
    Seq::new(map.len(), |i: int| flipped(map[i], crossings(pts, (pts.len() / 4) as int, i % width, i / width)))
}

/// `map` with the cells along the contours `cs` flipped, one after the
/// other.
pub open spec fn mark_all(map: Seq<i32>, cs: Seq<Seq<(nat, nat)>>, width: int) -> Seq<i32>
    decreases cs.len(),
{
    if cs.len() == 0 {
        map
    } else {
        mark_spec(mark_all(map, cs.drop_last(), width), cs.last(), width)
    }
}

/// The rows filled as `fill_rows` fills them.
pub open spec fn fill_spec(map: Seq<i32>, width: int) -> Seq<i32> {
    Seq::new(map.len(), |i: int| if ones_before(map, width, i / width, i % width) % 2 == 1 { 1i32 } else { 0i32 })
}

/// The rows in the opposite order; what lies past the `height` rows stays.
pub open spec fn reverse_spec<T>(map: Seq<T>, width: int, height: int) -> Seq<T> {
    Seq::new(map.len(), |i: int| if i < width * height { map[(height - 1 - i / width) * width + i % width] } else { map[i] })
}

/// The grid code of a booster's letter: 3 to 8 for B, F, L, X, R and C.
pub open spec fn booster_code(letter: u8) -> Option<i32> {
    if letter == 66 {
        Some(3)
    } else if letter == 70 {
        Some(4)
    } else if letter == 76 {
        Some(5)
    } else if letter == 88 {
        Some(6)
    } else if letter == 82 {
        Some(7)
    } else if letter == 67 {
        Some(8)
    } else {
        None
    }
}

/// Places the boosters `bs` one after the other; `None` where one has an
/// unknown letter, lies outside the grid or on a cell that is not a plain
/// inside cell.
pub open spec fn place_boosters(map: Seq<i32>, bs: Seq<(u8, nat, nat)>, width: int, height: int) -> Option<Seq<i32>>
    decreases bs.len(),
{
    if bs.len() == 0 {
        Some(map)
    } else {
        match place_boosters(map, bs.drop_last(), width, height) {
            None => None,
            Some(m) => {
                let b = bs.last();
                if b.2 * width + b.1 < width * height && booster_code(b.0) is Some && m[b.2 * width + b.1] == 1 {
                    Some(m.update(b.2 * width + b.1, booster_code(b.0)->0))
                } else {
                    None
                }
            },
        }
    }
}

/// The largest column and row of the mine's corners.
pub open spec fn max_x(c: Seq<(nat, nat)>) -> nat
    decreases c.len(),
{
    if c.len() == 0 {
        0
    } else if c.last().0 > max_x(c.drop_last()) {
        c.last().0
    } else {
        max_x(c.drop_last())
    }
}

pub open spec fn max_y(c: Seq<(nat, nat)>) -> nat
    decreases c.len(),
{
    if c.len() == 0 {
        0
    } else if c.last().1 > max_y(c.drop_last()) {
        c.last().1
    } else {
        max_y(c.drop_last())
    }
}

/// A contour that `mark_map` can read: an even number of corners, at least
/// two, each within the grid's corners.
pub open spec fn contour_ok(c: Seq<(nat, nat)>, width: int, height: int) -> bool {
    &&& c.len() >= 2
    &&& c.len() % 2 == 0
    &&& forall|k: int| 0 <= k < c.len() ==> (#[trigger] c[k]).0 <= width && c[k].1 <= height
}

/// An obstacle that the grid can take: an even number of corners, at least
/// two, whose edges inside the grid's columns end within its rows; edges
/// right of the grid are skipped.
pub open spec fn obstacle_ok(c: Seq<(nat, nat)>, width: int, height: int) -> bool {
    &&& c.len() >= 2
    &&& c.len() % 2 == 0
    &&& edges_fit(corners(flat(c)), width, width * height)
}

/// The grid a description lays out, rows from the bottom: flips along the
/// mine's and the obstacles' edges, rows filled, the worker marked 2 and
/// the boosters placed; `None` where the description cannot be laid out.
pub open spec fn layout_spec(d: DescModel) -> Option<(int, int, Seq<i32>, Seq<i32>)> {
    let w = max_x(d.mine) as int;
    let h = max_y(d.mine) as int;
    let zero = Seq::new((w * h) as nat, |i: int| 0i32);
    let filled = fill_spec(mark_all(zero, seq![d.mine] + d.obstacles, w), w);
    if w <= 0x4000_0000 && h <= 0x4000_0000 && w * h <= 0x7fff_ffff && w > 0 && contour_ok(d.mine, w, h) && (forall|k: int|
        0 <= k < d.obstacles.len() ==> obstacle_ok(#[trigger] d.obstacles[k], w, h)) && d.worker.1 * w + d.worker.0 < w * h {
        let with_worker = filled.update(d.worker.1 * w + d.worker.0, 2);
        match place_boosters(with_worker, d.boosters, w, h) {
            Some(m) => Some((w, h, filled, m)),
            None => None,
        }
    } else {
        None
    }
}


/// `g` is the grid that `d` lays out to.
pub open spec fn laid(d: DescModel, g: Grid) -> bool {
    match layout_spec(d) {
        Some((w, h, filled, m)) => {
            &&& g.width == w
            &&& g.height == h
            &&& g.inside@ == reverse_spec(filled, w, h)
            &&& g.cells@ == reverse_spec(m, w, h)
            &&& g.worker.0 == d.worker.0
            &&& g.worker.1 == h - 1 - d.worker.1
        },
        None => false,
    }
}

/// A grid of a size the positions can index in 31 bits, with the worker on
/// it.
pub open spec fn playable(g: Grid) -> bool {
    &&& 0 < g.width <= 0x4000_0000
    &&& 0 < g.height <= 0x4000_0000
    &&& g.width * g.height <= 0x7fff_ffff
    &&& g.cells@.len() == g.width * g.height
    &&& g.inside@.len() == g.width * g.height
    &&& g.worker.1 < g.height
}

/// A description laid out on a grid, rows from the top: which cells are
/// inside the mine, and the cells with the worker, marked 2, and the
/// boosters, marked 3 to 8, on the inside ones, marked 1.
pub struct Grid {
    pub width: usize,
    pub height: usize,
    pub inside: Vec<i32>,
    pub cells: Vec<i32>,
    pub worker: (usize, usize),
}

fn flatten(c: &Vec<(usize, usize)>) -> (r: Vec<usize>)
    ensures
        r@ == flat(nat_contour(*c)),
{
    let mut r: Vec<usize> = Vec::new();
    let n = c.len();
    for k in 0..n
        invariant
            n == c@.len(),
            r@.len() == 2 * k,
            forall|j: int| 0 <= j < 2 * k ==> #[trigger] r@[j] == (if j % 2 == 0 { c@[j / 2].0 } else { c@[j / 2].1 }),
    {
        r.push(c[k].0);
        r.push(c[k].1);
    }
    assert(r@ =~= flat(nat_contour(*c)));
    r
}

/// The rows among the numbers of a contour's corners, read in edge order,
/// are rows of its corners.
proof fn lemma_corner_row(c: Seq<(nat, nat)>, j: int)
    requires
        c.len() >= 2,
        0 <= j < 2 * c.len(),
        j % 2 == 1,
    ensures
        exists|k: int| 0 <= k < c.len() && corners(flat(c))[j] == c[k].1 as usize,
{
    let f = flat(c);
    let n = f.len() as int;
    let p = corners(f);
    if f[1] == f[3] {
        if j < n - 2 {
            assert(p[j] == f[j + 2]);
            assert((j + 2) % 2 == 1);
            assert(f[j + 2] == c[(j + 2) / 2].1 as usize);
        } else {
            assert(p[j] == f[j - (n - 2)]);
            assert((j - (n - 2)) % 2 == 1);
            assert(f[j - (n - 2)] == c[(j - (n - 2)) / 2].1 as usize);
        }
    } else {
        assert(f[j] == c[j / 2].1 as usize);
    }
}

/// A contour within the grid's corners has every edge inside the map.
proof fn lemma_contour_fits(c: Seq<(nat, nat)>, w: int, h: int)
    requires
        contour_ok(c, w, h),
        0 < w,
        0 <= h,
    ensures
        edges_fit(corners(flat(c)), w, w * h),
{
    let p = corners(flat(c));
    assert(p.len() == 2 * c.len());
    assert forall|k: int| 0 <= k < p.len() / 4 implies #[trigger] edge_fits(p, k, w, w * h) by {
        lemma_corner_row(c, 4 * k + 1);
        lemma_corner_row(c, 4 * k + 3);
        let ya = p[4 * k + 1] as int;
        let yb = p[4 * k + 3] as int;
        assert(ya <= h && yb <= h);
        let top = if ya < yb { yb } else { ya };
        let x0 = p[4 * k] as int;
        if x0 < w && ya != yb {
            assert((top - 1) * w + x0 < w * h) by (nonlinear_arith)
                requires
                    1 <= top <= h,
                    0 <= x0 < w,
            ;
        }
    }
}

proof fn lemma_split_index(i: int, w: int, h: int)
    requires
        0 <= i < w * h,
        0 < w,
    ensures
        0 <= i % w < w,
        0 <= i / w < h,
        i == (i / w) * w + i % w,
{
    assert(0 <= i % w < w && i == (i / w) * w + i % w && 0 <= i / w) by (nonlinear_arith)
        requires
            0 <= i,
            0 < w,
    ;
    assert(i / w < h) by (nonlinear_arith)
        requires
            i == (i / w) * w + i % w,
            0 <= i % w,
            i < w * h,
            0 < w,
    ;
}

proof fn lemma_place_prefix(map: Seq<i32>, bs: Seq<(u8, nat, nat)>, k: int, width: int, height: int)
    requires
        0 <= k <= bs.len(),
        place_boosters(map, bs.take(k), width, height) is None,
    ensures
        place_boosters(map, bs, width, height) is None,
    decreases bs.len() - k,
{
    if k < bs.len() {
        assert(bs.take(k + 1).drop_last() =~= bs.take(k));
        lemma_place_prefix(map, bs, k + 1, width, height);
    } else {
        assert(bs.take(k) =~= bs);
    }
}

/// The largest column and row among the corners of `c`.
fn extent(c: &Vec<(usize, usize)>) -> (r: (usize, usize))
    ensures
        r.0 == max_x(nat_contour(*c)),
        r.1 == max_y(nat_contour(*c)),
{
    let mut w: usize = 0;
    let mut h: usize = 0;
    let n = c.len();
    for k in 0..n
        invariant
            n == c@.len(),
            w == max_x(nat_contour(*c).take(k as int)),
            h == max_y(nat_contour(*c).take(k as int)),
    {
        proof {
            let s = nat_contour(*c);
            assert(s.take(k + 1).drop_last() =~= s.take(k as int));
            assert(s.take(k + 1).last() == s[k as int]);
        }
        if w < c[k].0 {
            w = c[k].0;
        }
        if h < c[k].1 {
            h = c[k].1;
        }
    }
    proof {
        assert(nat_contour(*c).take(n as int) =~= nat_contour(*c));
    }
    (w, h)
}

/// Whether `c` is a contour that the grid can hold.
fn check_contour(c: &Vec<(usize, usize)>, width: usize, height: usize) -> (r: bool)
    ensures
        r == contour_ok(nat_contour(*c), width as int, height as int),
{
    let n = c.len();
    if n < 2 || n % 2 != 0 {
        return false;
    }
    for k in 0..n
        invariant
            n == c@.len(),
            forall|j: int| 0 <= j < k ==> (#[trigger] c@[j]).0 <= width && c@[j].1 <= height,
    {
        if c[k].0 > width || c[k].1 > height {
            proof {
                assert(nat_contour(*c)[k as int] == nat_point(c@[k as int]));
            }
            return false;
        }
    }
    proof {
        assert forall|j: int| 0 <= j < n implies (#[trigger] nat_contour(*c)[j]).0 <= width && nat_contour(*c)[j].1 <= height by {
            assert(nat_contour(*c)[j] == nat_point(c@[j]));
        }
    }
    true
}

/// The numbers of a contour's corners in edge order.
fn corners_of(pts: &Vec<usize>) -> (r: Vec<usize>)
    requires
        pts@.len() >= 4,
    ensures
        r@ == corners(pts@),
{
    let n = pts.len();
    let rot = pts[1] == pts[3];
    let mut r: Vec<usize> = Vec::new();
    for j in 0..n
        invariant
            n == pts@.len(),
            n >= 4,
            rot == (pts@[1] == pts@[3]),
            r@.len() == j,
            forall|i: int| 0 <= i < j ==> #[trigger] r@[i] == corners(pts@)[i],
    {
        let k = if rot {
            if j < n - 2 {
                j + 2
            } else {
                j - (n - 2)
            }
        } else {
            j
        };
        r.push(pts[k]);
    }
    assert(r@ =~= corners(pts@));
    r
}

/// Whether `c` is an obstacle that the grid can take.
fn check_obstacle(c: &Vec<(usize, usize)>, width: usize, height: usize) -> (r: bool)
    requires
        0 < width <= 0x4000_0000,
        height <= 0x4000_0000,
    ensures
        r == obstacle_ok(nat_contour(*c), width as int, height as int),
{
    let ghost oc = nat_contour(*c);
    let n = c.len();
    if n < 2 || n % 2 != 0 {
        return false;
    }
    let flat_pts = flatten(c);
    let pts = corners_of(&flat_pts);
    let m = pts.len() / 4;
    assert((width as u128) * (height as u128) <= 0x4000_0000u128 * 0x4000_0000u128) by (nonlinear_arith)
        requires
            width <= 0x4000_0000,
            height <= 0x4000_0000,
    ;
    let len: u128 = (width as u128) * (height as u128);
    proof {
        assert(oc.len() == n);
        assert(pts@.len() == 2 * n);
    }
    let plen = pts.len();
    for k in 0..m
        invariant
            m == pts@.len() / 4,
            plen == pts@.len(),
            oc == nat_contour(*c),
            oc.len() >= 2,
            oc.len() % 2 == 0,
            pts@ == corners(flat(oc)),
            len == width * height,
            0 < width <= 0x4000_0000,
            forall|j: int| 0 <= j < k ==> #[trigger] edge_fits(pts@, j, width as int, width * height),
    {
        assert(4 * k + 3 < plen) by (nonlinear_arith)
            requires
                k < m,
                m == plen / 4,
        ;
        let x0 = pts[4 * k];
        let ya = pts[4 * k + 1];
        let yb = pts[4 * k + 3];
        let top = if ya < yb { yb } else { ya };
        if x0 < width && ya != yb {
            assert((top as u128 - 1) * (width as u128) <= 0xffff_ffff_ffff_ffffu128 * 0x4000_0000u128) by (nonlinear_arith)
                requires
                    1 <= top <= 0xffff_ffff_ffff_ffffu128,
                    width <= 0x4000_0000,
            ;
            let last: u128 = (top as u128 - 1) * (width as u128) + x0 as u128;
            if last >= len {
                proof {
                    assert(last == (top - 1) * width + x0);
                    assert(!edge_fits(pts@, k as int, width as int, width * height));
                    assert(!edges_fit(corners(flat(oc)), width as int, width * height));
                }
                return false;
            }
        }
    }
    true
}

/// The grid code of a booster's letter.
fn booster_code_of(letter: u8) -> (r: Option<i32>)
    ensures
        r == booster_code(letter),
{
    if letter == 66 {
        Some(3)
    } else if letter == 70 {
        Some(4)
    } else if letter == 76 {
        Some(5)
    } else if letter == 88 {
        Some(6)
    } else if letter == 82 {
        Some(7)
    } else if letter == 67 {
        Some(8)
    } else {
        None
    }
}


/// Lays a description out on a grid as wide and as high as the largest
/// column and row of the mine's corners: the cells along the vertical edges
/// of the mine and of each obstacle are flipped, each row is filled, the
/// worker's cell is marked and the boosters are placed, then the rows are
/// put top first. Cells are found by their place in the rows, `y * width + x`,
/// so a worker or booster with `x` past the width lands on a cell of a later
/// row. A description is refused where the grid would be empty or hold more
/// than 2^31 - 1 cells, a contour has an odd number of corners or fewer than
/// two, an obstacle edge inside the grid's columns runs past its last row,
/// the worker's place lies past the last cell, or a booster has an unknown
/// letter, lies past the last cell or on a cell that is outside the mine,
/// the worker's or another booster's.
pub fn layout(desc: &Desc) -> (r: Result<Grid, DescError>)
    ensures
        match layout_spec(desc@) {
            Some((w, h, filled, m)) => r is Ok && (r->Ok_0).width == w && (r->Ok_0).height == h && (r->Ok_0).inside@ == reverse_spec(
                filled,
                w,
                h,
            ) && (r->Ok_0).cells@ == reverse_spec(m, w, h) && (r->Ok_0).worker == (desc.worker.0, (h - 1 - desc.worker.1) as usize),
            None => r is Err,
        },
        r is Ok ==> playable(r->Ok_0) && laid(desc@, r->Ok_0),
{
    let ghost d = desc@;
    let (w, h) = extent(&desc.mine);
    if w == 0 || w > 0x4000_0000 || h > 0x4000_0000 {
        return Err(DescError::TooLarge);
    }
    assert((w as u64) * (h as u64) <= 0x1000_0000_0000_0000) by (nonlinear_arith)
        requires
            w <= 0x4000_0000,
            h <= 0x4000_0000,
    ;
    if (w as u64) * (h as u64) > 0x7fff_ffff {
        return Err(DescError::TooLarge);
    }
    let size = w * h;
    if !check_contour(&desc.mine, w, h) {
        return Err(DescError::BadContour);
    }
    let no = desc.obstacles.len();
    for k in 0..no
        invariant
            no == desc.obstacles@.len(),
            d == desc@,
            w == max_x(d.mine),
            h == max_y(d.mine),
            0 < w <= 0x4000_0000,
            h <= 0x4000_0000,
            w * h <= 0x7fff_ffff,
            forall|j: int| 0 <= j < k ==> obstacle_ok(nat_contour(#[trigger] desc.obstacles@[j]), w as int, h as int),
    {
        if !check_obstacle(&desc.obstacles[k], w, h) {
            proof {
                assert(d.obstacles[k as int] == nat_contour(desc.obstacles@[k as int]));
                assert(!obstacle_ok(d.obstacles[k as int], w as int, h as int));
                assert(layout_spec(d) is None);
            }
            return Err(DescError::BadContour);
        }
    }
    proof {
        assert forall|j: int| 0 <= j < d.obstacles.len() implies obstacle_ok(#[trigger] d.obstacles[j], w as int, h as int) by {
            assert(d.obstacles[j] == nat_contour(desc.obstacles@[j]));
        }
    }
    let (wx, wy) = desc.worker;
    if wy >= h {
        assert(wy * w + wx >= w * h) by (nonlinear_arith)
            requires
                wy >= h,
                0 < w,
        ;
        return Err(DescError::OutOfMap(wx, wy));
    }
    assert(wy * w + w <= size) by (nonlinear_arith)
        requires
            wy < h,
            size == w * h,
    ;
    if wx >= size - wy * w {
        return Err(DescError::OutOfMap(wx, wy));
    }
    let ghost cs = seq![d.mine] + d.obstacles;
    let ghost zero = Seq::new((w * h) as nat, |i: int| 0i32);
    let mut map: Vec<i32> = Vec::new();
    for i in 0..size
        invariant
            map@.len() == i,
            forall|j: int| 0 <= j < i ==> #[trigger] map@[j] == 0i32,
    {
        map.push(0);
    }
    proof {
        assert(map@ =~= zero);
        assert(cs.take(0) =~= Seq::<Seq<(nat, nat)>>::empty());
    }
    {
        let mut pts = flatten(&desc.mine);
        proof {
            assert(cs[0] == d.mine);
            lemma_contour_fits(d.mine, w as int, h as int);
        }
        let ghost before = map@;
        mark_map(&mut map, &mut pts, w);
        proof {
            assert(cs.take(1).drop_last() =~= cs.take(0));
            assert(cs.take(1).last() == d.mine);
            assert(map@ =~= mark_spec(before, d.mine, w as int));
            assert(mark_all(zero, cs.take(0), w as int) == zero);
            assert(map@ == mark_all(zero, cs.take(1), w as int));
        }
    }
    for k in 0..no
        invariant
            no == desc.obstacles@.len(),
            cs == seq![d.mine] + d.obstacles,
            d == desc@,
            size == w * h,
            0 < w,
            forall|j: int| 0 <= j < d.obstacles.len() ==> obstacle_ok(#[trigger] d.obstacles[j], w as int, h as int),
            map@ == mark_all(zero, cs.take(k + 1), w as int),
            map@.len() == size,
    {
        let mut pts = flatten(&desc.obstacles[k]);
        let ghost c = cs[k + 1];
        proof {
            assert(c == d.obstacles[k as int]);
            assert(obstacle_ok(c, w as int, h as int));
            assert(c == nat_contour(desc.obstacles@[k as int]));
        }
        let ghost before = map@;
        mark_map(&mut map, &mut pts, w);
        proof {
            assert(cs.take(k + 2).drop_last() =~= cs.take(k + 1));
            assert(cs.take(k + 2).last() == c);
            assert(map@ =~= mark_spec(before, c, w as int));
        }
    }
    proof {
        assert(cs.take(no + 1) =~= cs);
    }
    let ghost marked = map@;
    fill_rows(&mut map, w, h);
    proof {
        assert forall|i: int| 0 <= i < size implies #[trigger] map@[i] == fill_spec(marked, w as int)[i] by {
            lemma_split_index(i, w as int, h as int);
        }
        assert(map@ =~= fill_spec(marked, w as int));
    }
    let ghost filled = map@;
    let mut inside: Vec<i32> = Vec::new();
    for i in 0..size
        invariant
            size == map@.len(),
            map@ == filled,
            inside@ == map@.take(i as int),
    {
        inside.push(map[i]);
        proof {
            assert(map@.take(i + 1) =~= map@.take(i as int).push(map@[i as int]));
        }
    }
    proof {
        assert(inside@ =~= filled);
    }
    let mut cells = map;
    cells.set(wy * w + wx, 2);
    let ghost with_worker = cells@;
    let nb = desc.boosters.len();
    proof {
        assert(d.boosters.take(0) =~= Seq::<(u8, nat, nat)>::empty());
        assert(with_worker == filled.update(d.worker.1 * w + d.worker.0, 2));
        assert(layout_spec(d) == match place_boosters(with_worker, d.boosters, w as int, h as int) {
            Some(m) => Some((w as int, h as int, filled, m)),
            None => None,
        });
    }
    for k in 0..nb
        invariant
            nb == desc.boosters@.len(),
            d == desc@,
            size == w * h,
            0 < w,
            cells@.len() == size,
            inside@ == filled,
            filled.len() == size,
            place_boosters(with_worker, d.boosters.take(k as int), w as int, h as int) == Some(cells@),
            layout_spec(d) == match place_boosters(with_worker, d.boosters, w as int, h as int) {
                Some(m) => Some((w as int, h as int, filled, m)),
                None => None,
            },
    {
        let (letter, bx, by) = desc.boosters[k];
        proof {
            assert(d.boosters[k as int] == nat_booster(desc.boosters@[k as int]));
            assert(d.boosters.take(k + 1).drop_last() =~= d.boosters.take(k as int));
            assert(d.boosters.take(k + 1).last() == d.boosters[k as int]);
        }
        if by >= h {
            assert(by * w + bx >= w * h) by (nonlinear_arith)
                requires
                    by >= h,
                    0 < w,
            ;
            proof {
                lemma_place_prefix(with_worker, d.boosters, k + 1, w as int, h as int);
            }
            return Err(DescError::OutOfMap(bx, by));
        }
        assert(by * w + w <= size) by (nonlinear_arith)
            requires
                by < h,
                size == w * h,
        ;
        if bx >= size - by * w {
            proof {
                lemma_place_prefix(with_worker, d.boosters, k + 1, w as int, h as int);
            }
            return Err(DescError::OutOfMap(bx, by));
        }
        let code = match booster_code_of(letter) {
            Some(c) => c,
            None => {
                proof {
                    lemma_place_prefix(with_worker, d.boosters, k + 1, w as int, h as int);
                }
                return Err(DescError::UnknownBooster(letter));
            },
        };
        let j = by * w + bx;
        if cells[j] != 1 {
            proof {
                lemma_place_prefix(with_worker, d.boosters, k + 1, w as int, h as int);
            }
            return Err(DescError::Conflict(bx, by));
        }
        cells.set(j, code);
    }
    proof {
        assert(d.boosters.take(nb as int) =~= d.boosters);
    }
    let ghost placed = cells@;
    reverse_map(&mut cells, w, h);
    reverse_map(&mut inside, w, h);
    proof {
        assert forall|i: int| 0 <= i < size implies #[trigger] cells@[i] == reverse_spec(placed, w as int, h as int)[i] by {
            lemma_split_index(i, w as int, h as int);
        }
        assert forall|i: int| 0 <= i < size implies #[trigger] inside@[i] == reverse_spec(filled, w as int, h as int)[i] by {
            lemma_split_index(i, w as int, h as int);
        }
        assert(cells@ =~= reverse_spec(placed, w as int, h as int));
        assert(filled.len() == size);
        assert(inside@.len() == size);
        assert(inside@ =~= reverse_spec(filled, w as int, h as int));
    }
    Ok(Grid { width: w, height: h, inside, cells, worker: (wx, h - 1 - wy) })
}


/// The colour of a grid code, as red, green and blue; `None` for a code
/// that has none.
pub open spec fn code_color(v: i32) -> Option<(u8, u8, u8)> {
    if v == 0 {
        Some((0x30u8, 0x30u8, 0x30u8))
    } else if v == 1 {
        Some((0xFFu8, 0xFFu8, 0xB0u8))
    } else if v == 2 {
        Some((0xF0u8, 0x30u8, 0x30u8))
    } else if v == 3 {
        Some((0xF0u8, 0xE0u8, 0x00u8))
    } else if v == 4 {
        Some((0x90u8, 0x60u8, 0x00u8))
    } else if v == 5 {
        Some((0x20u8, 0xF0u8, 0x00u8))
    } else if v == 6 {
        Some((0x00u8, 0x00u8, 0xF0u8))
    } else if v == 7 {
        Some((0xF0u8, 0x40u8, 0xF0u8))
    } else if v == 8 {
        Some((0x90u8, 0x90u8, 0xF0u8))
    } else {
        None
    }
}

/// Channel `ch` of pixel `(px, py)` of the picture of a grid `width` cells
/// wide: each cell is a square of four pixels a side whose first three rows
/// and columns take the cell's colour; the rest, and every alpha, is 0xFF.
pub open spec fn pixel(cells: Seq<i32>, width: int, px: int, py: int, ch: int) -> u8 {
    let v = cells[(py / 4) * width + px / 4];
    if px % 4 < 3 && py % 4 < 3 && ch < 3 && code_color(v) is Some {
        let c = code_color(v)->0;
        if ch == 0 {
            c.0
        } else if ch == 1 {
            c.1
        } else {
            c.2
        }
    } else {
        0xFFu8
    }
}

/// Channel `ch` of pixel `(px, py)`, computed.
fn pixel_of(cells: &Vec<i32>, width: usize, px: usize, py: usize, ch: usize) -> (r: u8)
    requires
        (py / 4) * width + px / 4 < cells@.len(),
        cells@.len() <= usize::MAX,
    ensures
        r == pixel(cells@, width as int, px as int, py as int, ch as int),
{
    let v = cells[(py / 4) * width + px / 4];
    if !(px % 4 < 3 && py % 4 < 3 && ch < 3) {
        return 0xFF;
    }
    let c: (u8, u8, u8) = if v == 0 {
        (0x30, 0x30, 0x30)
    } else if v == 1 {
        (0xFF, 0xFF, 0xB0)
    } else if v == 2 {
        (0xF0, 0x30, 0x30)
    } else if v == 3 {
        (0xF0, 0xE0, 0x00)
    } else if v == 4 {
        (0x90, 0x60, 0x00)
    } else if v == 5 {
        (0x20, 0xF0, 0x00)
    } else if v == 6 {
        (0x00, 0x00, 0xF0)
    } else if v == 7 {
        (0xF0, 0x40, 0xF0)
    } else if v == 8 {
        (0x90, 0x90, 0xF0)
    } else {
        return 0xFF;
    };
    if ch == 0 {
        c.0
    } else if ch == 1 {
        c.1
    } else {
        c.2
    }
}

/// The picture of a grid, four pixels a side per cell, as RGBA bytes row by
/// row: byte `((py * 4 * width) + px) * 4 + ch` is channel `ch` of pixel
/// `(px, py)`.
pub fn render(grid: &Grid) -> (r: Vec<u8>)
    requires
        grid.cells@.len() == grid.width * grid.height,
        4 * grid.width <= usize::MAX,
        4 * grid.height <= usize::MAX,
        64 * grid.width * grid.height <= usize::MAX,
    ensures
        r@.len() == 64 * grid.width * grid.height,
        forall|px: int, py: int, ch: int|
            0 <= px < 4 * grid.width && 0 <= py < 4 * grid.height && 0 <= ch < 4 ==> #[trigger] r@[(py * 4 * grid.width + px) * 4 + ch]
                == pixel(grid.cells@, grid.width as int, px, py, ch),
{
    let w = grid.width;
    let h = grid.height;
    let len = grid.cells.len();
    let ow = w * 4;
    let oh = h * 4;
    let mut r: Vec<u8> = Vec::new();
    assert(0 * ow * 4 == 0);
    for py in 0..oh
        invariant
            ow == 4 * w,
            oh == 4 * h,
            w == grid.width,
            h == grid.height,
            grid.cells@.len() == w * h,
            grid.cells@.len() <= usize::MAX,
            64 * w * h <= usize::MAX,
            r@.len() == py * ow * 4,
            forall|px: int, qy: int, ch: int|
                0 <= px < ow && 0 <= qy < py && 0 <= ch < 4 ==> #[trigger] r@[(qy * ow + px) * 4 + ch] == pixel(grid.cells@, w as int, px, qy, ch),
    {
        for px in 0..ow
            invariant
                ow == 4 * w,
                oh == 4 * h,
                py < oh,
                w == grid.width,
                h == grid.height,
                grid.cells@.len() == w * h,
                grid.cells@.len() <= usize::MAX,
                64 * w * h <= usize::MAX,
                r@.len() == (py * ow + px) * 4,
                forall|qx: int, qy: int, ch: int|
                    0 <= qx < ow && 0 <= qy < py && 0 <= ch < 4 ==> #[trigger] r@[(qy * ow + qx) * 4 + ch] == pixel(grid.cells@, w as int, qx, qy, ch),
                forall|qx: int, ch: int|
                    0 <= qx < px && 0 <= ch < 4 ==> #[trigger] r@[(py * ow + qx) * 4 + ch] == pixel(grid.cells@, w as int, qx, py as int, ch),
        {
            proof {
                assert((py / 4) * w + px / 4 < w * h) by (nonlinear_arith)
                    requires
                        py < 4 * h,
                        px < 4 * w,
                ;
                assert((py * ow + px) * 4 + 4 <= 64 * w * h) by (nonlinear_arith)
                    requires
                        py < 4 * h,
                        px < 4 * w,
                        ow == 4 * w,
                ;
            }
            let ghost base = r@.len();
            let b0 = pixel_of(&grid.cells, w, px, py, 0);
            let b1 = pixel_of(&grid.cells, w, px, py, 1);
            let b2 = pixel_of(&grid.cells, w, px, py, 2);
            let b3 = pixel_of(&grid.cells, w, px, py, 3);
            r.push(b0);
            r.push(b1);
            r.push(b2);
            r.push(b3);
            proof {
                assert forall|qx: int, qy: int, ch: int|
                    0 <= qx < ow && 0 <= qy < py && 0 <= ch < 4 implies #[trigger] r@[(qy * ow + qx) * 4 + ch] == pixel(
                    grid.cells@,
                    w as int,
                    qx,
                    qy,
                    ch,
                ) by {
                    assert((qy * ow + qx) * 4 + ch < base) by (nonlinear_arith)
                        requires
                            0 <= qx < ow,
                            0 <= qy < py,
                            0 <= ch < 4,
                            base == (py * ow + px) * 4,
                            0 <= px,
                    ;
                }
                assert forall|qx: int, ch: int| 0 <= qx < px + 1 && 0 <= ch < 4 implies #[trigger] r@[(py * ow + qx) * 4 + ch] == pixel(
                    grid.cells@,
                    w as int,
                    qx,
                    py as int,
                    ch,
                ) by {
                    if qx < px {
                        assert((py * ow + qx) * 4 + ch < base) by (nonlinear_arith)
                            requires
                                0 <= qx < px,
                                0 <= ch < 4,
                                base == (py * ow + px) * 4,
                        ;
                    }
                }
            }
        }
        proof {
            assert((py * ow + ow) * 4 == (py + 1) * ow * 4) by (nonlinear_arith);
            assert forall|px: int, qy: int, ch: int|
                0 <= px < ow && 0 <= qy < py + 1 && 0 <= ch < 4 implies #[trigger] r@[(qy * ow + px) * 4 + ch] == pixel(
                grid.cells@,
                w as int,
                px,
                qy,
                ch,
            ) by {}
        }
    }
    proof {
        assert(oh * ow * 4 == 64 * w * h) by (nonlinear_arith)
            requires
                ow == 4 * w,
                oh == 4 * h,
        ;
        assert forall|px: int, py: int, ch: int|
            0 <= px < 4 * grid.width && 0 <= py < 4 * grid.height && 0 <= ch < 4 implies #[trigger] r@[(py * 4 * grid.width + px) * 4
                + ch] == pixel(grid.cells@, grid.width as int, px, py, ch) by {
            assert(py * 4 * grid.width == py * ow) by (nonlinear_arith)
                requires
                    ow == 4 * grid.width,
            ;
        }
    }
    r
}

/// Putting the rows in the opposite order twice gives the map back.
pub proof fn lemma_reverse_twice<T>(map: Seq<T>, width: int, height: int)
    requires
        0 < width,
        0 <= height,
        map.len() >= width * height,
    ensures
        reverse_spec(reverse_spec(map, width, height), width, height) == map,
{
    let r = reverse_spec(map, width, height);
    let rr = reverse_spec(r, width, height);
    assert forall|i: int| 0 <= i < map.len() implies #[trigger] rr[i] == map[i] by {
        if i >= width * height {
            assert(rr[i] == r[i]);
        } else {
        lemma_split_index(i, width, height);
        let y = i / width;
        let x = i % width;
        let j = (height - 1 - y) * width + x;
        lemma_cell_of(height - 1 - y, x, width);
        assert(0 <= j < width * height) by {
            lemma_cell_of(height - 1 - y, x, width);
            lemma_index_bound(height - 1 - y, x, width, height);
        }
        assert(rr[i] == r[j]);
        assert(r[j] == map[(height - 1 - (height - 1 - y)) * width + x]);
        }
    }
    assert(rr =~= map);
}

proof fn lemma_index_bound(y: int, x: int, width: int, height: int)
    requires
        0 <= x < width,
        0 <= y < height,
    ensures
        0 <= y * width + x < width * height,
{
    crate::grid::lemma_index(x, y, width, height);
}

} // verus!
