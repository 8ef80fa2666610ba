//! The chain puzzle: a square grid of cells to be carved into one region
//! that covers the required cells and avoids the forbidden ones.
use vstd::prelude::*;

verus! {

/// The cell at `(x, y)`, or `false` outside the grid.
pub open spec fn value_spec(map: Seq<bool>, x: int, y: int, size: int) -> bool {
    if x < 0 || size <= x || y < 0 || size <= y {
        false
    } else {
        map[y * size + x]
    }
}

/// The map holds a cell for each square of a grid whose indices fit in 32 bits.
pub open spec fn map_ok(map: Seq<bool>, size: int) -> bool {
    &&& 0 <= size
    &&& size * size <= i32::MAX
    &&& map.len() >= size * size
}

pub fn value_at(map: &Vec<bool>, x: i32, y: i32, size: i32) -> (r: bool)
    requires
        map_ok(map@, size as int),
    ensures
        r == value_spec(map@, x as int, y as int, size as int),
{
    if x < 0 || size <= x || y < 0 || size <= y {
        false
    } else {
        proof {
            crate::grid::lemma_index(x as int, y as int, size as int, size as int);
        }
        map[(y * size + x) as usize]
    }
}

/// The number of `y < h` with `f(x, y)`.
pub open spec fn count_col(f: spec_fn(int, int) -> bool, x: int, h: int) -> nat
    decreases h,
{
    if h <= 0 {
        0
    } else {
        count_col(f, x, h - 1) + if f(x, h - 1) {
            1nat
        } else {
            0nat
        }
    }
}

/// The number of points `(x, y)` of `[0, w) x [0, h)` with `f(x, y)`.
pub open spec fn count_grid(f: spec_fn(int, int) -> bool, w: int, h: int) -> nat
    decreases w,
{
    if w <= 0 {
        0
    } else {
        count_grid(f, w - 1, h) + count_col(f, w - 1, h)
    }
}

/// The grid point `(x, y)` is a corner of the carved region: one or three of
/// the four cells around it are set.
pub open spec fn is_vertex(map: Seq<bool>, size: int, x: int, y: int) -> bool {
    let n = (if value_spec(map, x - 1, y, size) { 1int } else { 0int }) + (if value_spec(map, x - 1, y - 1, size) {
        1int
    } else {
        0int
    }) + (if value_spec(map, x, y - 1, size) { 1int } else { 0int }) + (if value_spec(map, x, y, size) {
        1int
    } else {
        0int
    });
    n == 1 || n == 3
}

/// Some cell of the grid is set.
pub open spec fn any_set(map: Seq<bool>, size: int) -> bool {
    exists|a: int, b: int| 0 <= a < size && 0 <= b < size && #[trigger] value_spec(map, a, b, size)
}

/// Column `c` holds a set cell and no set cell lies left of it.
pub open spec fn is_min_col(map: Seq<bool>, size: int, c: int) -> bool {
    &&& exists|b: int| 0 <= c < size && 0 <= b < size && #[trigger] value_spec(map, c, b, size)
    &&& forall|a: int, b: int| 0 <= a < size && 0 <= b < size && #[trigger] value_spec(map, a, b, size) ==> c <= a
}

/// Column `c` holds a set cell and no set cell lies right of it.
pub open spec fn is_max_col(map: Seq<bool>, size: int, c: int) -> bool {
    &&& exists|b: int| 0 <= c < size && 0 <= b < size && #[trigger] value_spec(map, c, b, size)
    &&& forall|a: int, b: int| 0 <= a < size && 0 <= b < size && #[trigger] value_spec(map, a, b, size) ==> a <= c
}

/// Row `r` holds a set cell and no set cell lies above it.
pub open spec fn is_min_row(map: Seq<bool>, size: int, r: int) -> bool {
    &&& exists|a: int| 0 <= a < size && 0 <= r < size && #[trigger] value_spec(map, a, r, size)
    &&& forall|a: int, b: int| 0 <= a < size && 0 <= b < size && #[trigger] value_spec(map, a, b, size) ==> r <= b
}

/// Row `r` holds a set cell and no set cell lies below it.
pub open spec fn is_max_row(map: Seq<bool>, size: int, r: int) -> bool {
    &&& exists|a: int| 0 <= a < size && 0 <= r < size && #[trigger] value_spec(map, a, r, size)
    &&& forall|a: int, b: int| 0 <= a < size && 0 <= b < size && #[trigger] value_spec(map, a, b, size) ==> b <= r
}

/// The horizontal extent of the set cells: the largest column less the
/// smallest, or `-size` where no cell is set.
pub open spec fn extent_x(map: Seq<bool>, size: int) -> int {
    if any_set(map, size) {
        (choose|c: int| is_max_col(map, size, c)) - (choose|c: int| is_min_col(map, size, c))
    } else {
        -size
    }
}

/// The vertical extent of the set cells: the largest row less the smallest,
/// or `-size` where no cell is set.
pub open spec fn extent_y(map: Seq<bool>, size: int) -> int {
    if any_set(map, size) {
        (choose|r: int| is_max_row(map, size, r)) - (choose|r: int| is_min_row(map, size, r))
    } else {
        -size
    }
}

/// Whether `map` is `want` at a cell.
pub open spec fn cell_is(map: Seq<bool>, size: int, want: bool) -> spec_fn((i32, i32)) -> bool {
    |p: (i32, i32)| map[p.1 * size + p.0] == want
}

/// The cells of `points` for which `map` is `want`, in order.
pub open spec fn rest_points(points: Seq<(i32, i32)>, map: Seq<bool>, size: int, want: bool) -> Seq<(i32, i32)> {
    points.filter(cell_is(map, size, want))
}

/// Keeping what a weaker test keeps keeps no more; one more element that
/// only the weaker test keeps makes it fewer.
proof fn lemma_filter_fewer<A>(s: Seq<A>, f: spec_fn(A) -> bool, g: spec_fn(A) -> bool, k: int)
    requires
        forall|i: int| 0 <= i < s.len() && g(#[trigger] s[i]) ==> f(s[i]),
    ensures
        s.filter(g).len() <= s.filter(f).len(),
        0 <= k < s.len() && f(s[k]) && !g(s[k]) ==> s.filter(g).len() < s.filter(f).len(),
    decreases s.len(),
{
    reveal_with_fuel(Seq::<_>::filter, 1);
    if s.len() > 0 {
        let t = s.drop_last();
        assert forall|i: int| 0 <= i < t.len() && g(#[trigger] t[i]) implies f(t[i]) by {
            assert(t[i] == s[i]);
        }
        if 0 <= k < s.len() - 1 {
            assert(t[k] == s[k]);
            lemma_filter_fewer(t, f, g, k);
        } else {
            lemma_filter_fewer(t, f, g, -1);
        }
        assert(g(s.last()) ==> f(s.last()));
    }
}

/// Clearing cells, one of them a listed one that was set, leaves fewer
/// listed cells set.
pub proof fn lemma_rest_fewer(points: Seq<(i32, i32)>, m1: Seq<bool>, m2: Seq<bool>, size: int, k: int)
    requires
        points_ok(points, size),
        map_ok(m1, size),
        m2.len() == m1.len(),
        forall|j: int| 0 <= j < m1.len() && #[trigger] m2[j] ==> m1[j],
        0 <= k < points.len(),
        m1[points[k].1 * size + points[k].0],
        !m2[points[k].1 * size + points[k].0],
    ensures
        rest_points(points, m2, size, true).len() < rest_points(points, m1, size, true).len(),
{
    let f = cell_is(m1, size, true);
    let g = cell_is(m2, size, true);
    assert forall|i: int| 0 <= i < points.len() && g(#[trigger] points[i]) implies f(points[i]) by {
        crate::grid::lemma_index(points[i].0 as int, points[i].1 as int, size, size);
    }
    lemma_filter_fewer(points, f, g, k);
}

/// The cells picked out of a list of grid cells lie in the grid.
pub proof fn lemma_rest_inside(points: Seq<(i32, i32)>, map: Seq<bool>, size: int, want: bool)
    requires
        points_ok(points, size),
    ensures
        points_ok(rest_points(points, map, size, want), size),
{
    let rest = rest_points(points, map, size, want);
    assert forall|i: int| 0 <= i < rest.len() implies 0 <= #[trigger] rest[i].0 < size && 0 <= rest[i].1 < size by {
        let x = rest[i];
        assert(rest.contains(x));
        broadcast use vstd::seq::Seq::lemma_filter_contains_rev;
        let j = choose|j: int| 0 <= j < points.len() && points[j] == x;
        assert(0 <= points[j].0 < size);
    }
}

/// Every point lies in the grid.
pub open spec fn points_ok(points: Seq<(i32, i32)>, size: int) -> bool {
    forall|i: int| 0 <= i < points.len() ==> 0 <= #[trigger] points[i].0 < size && 0 <= points[i].1 < size
}

/// The conditions of a chain puzzle: the grid size, the range of corner
/// counts, the boosters to place, and the cells that the region must cover
/// (white) and must avoid (black).
#[derive(Clone)]
pub struct Puzzle {
    pub size: i32,
    pub v_min: i32,
    pub v_max: i32,
    pub m_num: i32,
    pub f_num: i32,
    pub d_num: i32,
    pub r_num: i32,
    pub c_num: i32,
    pub x_num: i32,
    pub white_list: Vec<(i32, i32)>,
    pub black_list: Vec<(i32, i32)>,
}

/// The measures of a carved region.
#[derive(Debug)]
pub struct AnalyzeResult {
    pub width: i32,
    pub height: i32,
    pub cell_count: i32,
    pub rest_white: Vec<(i32, i32)>,
    pub rest_black: Vec<(i32, i32)>,
    pub v_count: i32,
    pub union_count: i32,
}

/// Cell `(a, b)` comes before `(x, y)` in a column-by-column scan.
pub open spec fn before(a: int, b: int, x: int, y: int) -> bool {
    a < x || (a == x && b < y)
}

/// The running bounds of the set cells scanned so far: every scanned set
/// cell lies inside them, each bound is met by one, and with none scanned
/// they keep their starting values.
pub open spec fn box_inv(
    map: Seq<bool>,
    size: int,
    x: int,
    y: int,
    left: int,
    top: int,
    right: int,
    bottom: int,
) -> bool {
    &&& forall|a: int, b: int|
        0 <= a < size && 0 <= b < size && before(a, b, x, y) && #[trigger] value_spec(map, a, b, size) ==> left <= a
            <= right && top <= b <= bottom
    &&& (left == size || exists|b: int| 0 <= left < size && 0 <= b < size && before(left, b, x, y) && #[trigger] value_spec(map, left, b, size))
    &&& (right == 0 || exists|b: int| 0 <= right < size && 0 <= b < size && before(right, b, x, y) && #[trigger] value_spec(map, right, b, size))
    &&& (top == size || exists|a: int| 0 <= a < size && 0 <= top < size && before(a, top, x, y) && #[trigger] value_spec(map, a, top, size))
    &&& (bottom == 0 || exists|a: int| 0 <= a < size && 0 <= bottom < size && before(a, bottom, x, y) && #[trigger] value_spec(map, a, bottom, size))
    &&& ((forall|a: int, b: int| 0 <= a < size && 0 <= b < size && before(a, b, x, y) ==> !#[trigger] value_spec(map, a, b, size))
        ==> left == size && top == size && right == 0 && bottom == 0)
    &&& 0 <= left <= size && 0 <= top <= size && 0 <= right < size + 1 && 0 <= bottom < size + 1
}

proof fn lemma_extent(map: Seq<bool>, size: int, left: int, top: int, right: int, bottom: int)
    requires
        0 <= size,
        box_inv(map, size, size, 0, left, top, right, bottom),
    ensures
        right - left == extent_x(map, size),
        bottom - top == extent_y(map, size),
{
    if any_set(map, size) {
        let (a0, b0) = choose|a: int, b: int| 0 <= a < size && 0 <= b < size && #[trigger] value_spec(map, a, b, size);
        assert(before(a0, b0, size, 0));
        assert(left != size);
        assert(right != 0 || right == 0);
        assert(is_min_col(map, size, left));
        assert(is_min_row(map, size, top));
        if right == 0 {
            assert(a0 <= right);
            assert(a0 == 0);
            assert(exists|b: int| 0 <= right < size && 0 <= b < size && #[trigger] value_spec(map, right, b, size)) by {
                assert(value_spec(map, right, b0, size));
            }
        }
        assert(is_max_col(map, size, right));
        if bottom == 0 {
            assert(exists|a: int| 0 <= a < size && 0 <= bottom < size && #[trigger] value_spec(map, a, bottom, size)) by {
                assert(b0 <= bottom);
                assert(value_spec(map, a0, bottom, size));
            }
        }
        assert(is_max_row(map, size, bottom));
        let c1 = choose|c: int| is_min_col(map, size, c);
        let c2 = choose|c: int| is_max_col(map, size, c);
        let r1 = choose|r: int| is_min_row(map, size, r);
        let r2 = choose|r: int| is_max_row(map, size, r);
        assert(c1 == left) by {
            let b1 = choose|b: int| 0 <= c1 < size && 0 <= b < size && #[trigger] value_spec(map, c1, b, size);
            let b2 = choose|b: int| 0 <= left < size && 0 <= b < size && #[trigger] value_spec(map, left, b, size);
            assert(value_spec(map, c1, b1, size));
            assert(value_spec(map, left, b2, size));
        }
        assert(c2 == right) by {
            let b1 = choose|b: int| 0 <= c2 < size && 0 <= b < size && #[trigger] value_spec(map, c2, b, size);
            let b2 = choose|b: int| 0 <= right < size && 0 <= b < size && #[trigger] value_spec(map, right, b, size);
            assert(value_spec(map, c2, b1, size));
            assert(value_spec(map, right, b2, size));
        }
        assert(r1 == top) by {
            let a1 = choose|a: int| 0 <= a < size && 0 <= r1 < size && #[trigger] value_spec(map, a, r1, size);
            let a2 = choose|a: int| 0 <= a < size && 0 <= top < size && #[trigger] value_spec(map, a, top, size);
            assert(value_spec(map, a1, r1, size));
            assert(value_spec(map, a2, top, size));
        }
        assert(r2 == bottom) by {
            let a1 = choose|a: int| 0 <= a < size && 0 <= r2 < size && #[trigger] value_spec(map, a, r2, size);
            let a2 = choose|a: int| 0 <= a < size && 0 <= bottom < size && #[trigger] value_spec(map, a, bottom, size);
            assert(value_spec(map, a1, r2, size));
            assert(value_spec(map, a2, bottom, size));
        }
    } else {
        assert forall|a: int, b: int| 0 <= a < size && 0 <= b < size && before(a, b, size, 0) implies !#[trigger] value_spec(
            map,
            a,
            b,
            size,
        ) by {}
    }
}

proof fn lemma_count_grid_bound(f: spec_fn(int, int) -> bool, w: int, h: int)
    requires
        0 <= w,
        0 <= h,
    ensures
        count_grid(f, w, h) <= w * h,
    decreases w,
{
    if w > 0 {
        lemma_count_grid_bound(f, w - 1, h);
        lemma_count_col_bound(f, w - 1, h);
        assert((w - 1) * h + h == w * h) by (nonlinear_arith);
    }
}

proof fn lemma_count_col_bound(f: spec_fn(int, int) -> bool, x: int, h: int)
    requires
        0 <= h,
    ensures
        count_col(f, x, h) <= h,
    decreases h,
{
    if h > 0 {
        lemma_count_col_bound(f, x, h - 1);
    }
}

/// The set cells of the map as a predicate on points.
pub open spec fn set_cells(map: Seq<bool>, size: int) -> spec_fn(int, int) -> bool {
    |a: int, b: int| value_spec(map, a, b, size)
}

/// The corners of the carved region as a predicate on grid points.
pub open spec fn corners(map: Seq<bool>, size: int) -> spec_fn(int, int) -> bool {
    |a: int, b: int| is_vertex(map, size, a, b)
}

/// The cells of `points` for which `map` is `want`, in order.
fn collect_rest(points: &Vec<(i32, i32)>, map: &Vec<bool>, size: i32, want: bool) -> (r: Vec<(i32, i32)>)
    requires
        map_ok(map@, size as int),
        points_ok(points@, size as int),
    ensures
        r@ == rest_points(points@, map@, size as int, want),
{
    let mut rest: Vec<(i32, i32)> = Vec::new();
    let n = points.len();
    for i in 0..n
        invariant
            n == points@.len(),
            map_ok(map@, size as int),
            points_ok(points@, size as int),
            rest@ == rest_points(points@.take(i as int), map@, size as int, want),
    {
        let point = points[i];
        proof {
            assert(0 <= point.0 < size && 0 <= point.1 < size);
            crate::grid::lemma_index(point.0 as int, point.1 as int, size as int, size as int);
            let pre = points@.take(i + 1);
            assert(pre.drop_last() =~= points@.take(i as int));
            assert(pre.last() == point);
            reveal_with_fuel(Seq::<_>::filter, 1);
        }
        if map[(point.1 * size + point.0) as usize] == want {
            rest.push(point);
        }
    }
    assert(points@.take(n as int) =~= points@);
    rest
}

impl Puzzle {
    /// The cells of the puzzle's lists lie in its grid, whose size allows the
    /// region count, and no cell occurs twice in a list.
    pub open spec fn lists_ok(&self) -> bool {
        &&& points_ok(self.white_list@, self.size as int)
        &&& points_ok(self.black_list@, self.size as int)
        &&& self.white_list@.no_duplicates()
        &&& self.black_list@.no_duplicates()
        &&& (self.size + 2) * (self.size + 2) <= 0x3fff_ffff
    }

    /// Measures the region carved in `map`: the extent of its cells, their
    /// number, the white cells it misses, the black cells it covers, its
    /// corners and the number of its regions of equal value.
    pub fn analyze(&self, map: &Vec<bool>) -> (r: AnalyzeResult)
        requires
            map_ok(map@, self.size as int),
            self.lists_ok(),
        ensures
            r.width == extent_x(map@, self.size as int),
            r.height == extent_y(map@, self.size as int),
            r.cell_count == count_grid(set_cells(map@, self.size as int), self.size as int, self.size as int),
            r.rest_white@ == rest_points(self.white_list@, map@, self.size as int, false),
            r.rest_black@ == rest_points(self.black_list@, map@, self.size as int, true),
            r.v_count == count_grid(corners(map@, self.size as int), self.size + 2, self.size + 2),
            r.union_count == crate::union::region_count(map@, self.size as int),
            r.union_count == crate::union::regions(map@, self.size as int),
    {
        let size = self.size;
        let ghost f = set_cells(map@, size as int);
        let mut left = size;
        let mut top = size;
        let mut right: i32 = 0;
        let mut bottom: i32 = 0;
        let mut cell_count: i32 = 0;
        proof {
            lemma_count_grid_bound(f, size as int, size as int);
        }
        for x in 0..size
            invariant
                size == self.size,
                map_ok(map@, size as int),
                f == set_cells(map@, size as int),
                box_inv(map@, size as int, x as int, 0, left as int, top as int, right as int, bottom as int),
                cell_count == count_grid(f, x as int, size as int),
        {
            proof {
                lemma_count_grid_bound(f, x as int, size as int);
                assert(x * size + size <= size * size) by (nonlinear_arith)
                    requires
                        0 <= x < size,
                ;
            }
            for y in 0..size
                invariant
                    size == self.size,
                    0 <= x < size,
                    map_ok(map@, size as int),
                    f == set_cells(map@, size as int),
                    box_inv(map@, size as int, x as int, y as int, left as int, top as int, right as int, bottom as int),
                    cell_count == count_grid(f, x as int, size as int) + count_col(f, x as int, y as int),
                    count_grid(f, x as int, size as int) <= x * size,
                    x * size + size <= size * size,
            {
                proof {
                    crate::grid::lemma_index(x as int, y as int, size as int, size as int);
                    lemma_count_col_bound(f, x as int, y as int);
                }
                if map[(y * size + x) as usize] {
                    cell_count = cell_count + 1;
                    if x < left {
                        left = x;
                    }
                    if right < x {
                        right = x;
                    }
                    if y < top {
                        top = y;
                    }
                    if bottom < y {
                        bottom = y;
                    }
                }
                proof {
                    assert(value_spec(map@, x as int, y as int, size as int) == map@[y * size + x]);
                    assert(box_inv(map@, size as int, x as int, y + 1, left as int, top as int, right as int, bottom as int)) by {
                        assert(value_spec(map@, x as int, y as int, size as int) ==> before(x as int, y as int, x as int, y + 1));
                    }
                }
            }
            proof {
                assert(box_inv(map@, size as int, x + 1, 0, left as int, top as int, right as int, bottom as int)) by {
                    assert forall|a: int, b: int| 0 <= a < size && 0 <= b < size implies (before(a, b, x + 1, 0) <==> before(a, b, x as int, size as int)) by {}
                }
            }
        }
        proof {
            lemma_extent(map@, size as int, left as int, top as int, right as int, bottom as int);
        }
        let rest_white = collect_rest(&self.white_list, map, size, false);
        let rest_black = collect_rest(&self.black_list, map, size, true);
        let union_count = crate::union::union_find(map, size);
        let ghost g = corners(map@, size as int);
        let mut v_count: i32 = 0;
        proof {
            assert(size < 46341) by (nonlinear_arith)
                requires
                    0 <= size,
                    size * size <= i32::MAX,
            ;
        }
        let w = size + 2;
        proof {
            lemma_count_grid_bound(g, w as int, w as int);
        }
        for x in 0..w
            invariant
                size == self.size,
                w == size + 2,
                w * w <= 0x3fff_ffff,
                map_ok(map@, size as int),
                g == corners(map@, size as int),
                v_count == count_grid(g, x as int, w as int),
        {
            proof {
                lemma_count_grid_bound(g, x as int, w as int);
                assert(x * w + w <= w * w) by (nonlinear_arith)
                    requires
                        0 <= x < w,
                ;
            }
            for y in 0..w
                invariant
                    size == self.size,
                    w == size + 2,
                    0 <= x < w,
                    map_ok(map@, size as int),
                    g == corners(map@, size as int),
                    v_count == count_grid(g, x as int, w as int) + count_col(g, x as int, y as int),
                    count_grid(g, x as int, w as int) <= x * w,
                    x * w + w <= w * w,
                    w * w <= 0x3fff_ffff,
            {
                proof {
                    lemma_count_col_bound(g, x as int, y as int);
                }
                let mut count: i32 = 0;
                if value_at(map, x - 1, y, size) {
                    count += 1;
                }
                if value_at(map, x - 1, y - 1, size) {
                    count += 1;
                }
                if value_at(map, x, y - 1, size) {
                    count += 1;
                }
                if value_at(map, x, y, size) {
                    count += 1;
                }
                if count == 1 || count == 3 {
                    v_count = v_count + 1;
                }
            }
        }
        AnalyzeResult {
            width: right - left,
            height: bottom - top,
            cell_count,
            rest_white,
            rest_black,
            v_count,
            union_count,
        }
    }
}

/// The placement of the worker and the boosters over the set cells: the
/// phase names what the next set cell receives, and `stopped` tells that all
/// were placed.
pub struct Placing {
    pub phase: int,
    pub counts: Seq<int>,
    pub worker: (int, int),
    pub boosts: Seq<(Seq<char>, int, int)>,
    pub stopped: bool,
}

/// The name of the booster placed in phase `p`.
pub open spec fn boost_name(p: int) -> Seq<char> {
    if p == 1 {
        "B"@
    } else if p == 2 {
        "F"@
    } else if p == 3 {
        "L"@
    } else if p == 4 {
        "R"@
    } else if p == 5 {
        "X"@
    } else {
        "C"@
    }
}

/// What the set cell `(x, y)` receives: the worker first, then the boosters
/// of each phase while its count lasts; after the last phase nothing more is
/// placed.
pub open spec fn place(st: Placing, x: int, y: int) -> Placing
    decreases 7 - st.phase,
{
    if st.stopped {
        st
    } else if st.phase <= 0 {
        Placing { worker: (x, y), phase: 1, ..st }
    } else if st.phase >= 7 {
        Placing { stopped: true, ..st }
    } else if st.counts[st.phase - 1] == 0 {
        place(Placing { phase: st.phase + 1, ..st }, x, y)
    } else {
        Placing {
            counts: st.counts.update(st.phase - 1, st.counts[st.phase - 1] - 1),
            boosts: st.boosts.push((boost_name(st.phase), x, y)),
            ..st
        }
    }
}

/// The booster counts of a puzzle, in placement order: B, F, L, R, X, C.
pub open spec fn stock(p: &Puzzle) -> Seq<int> {
    seq![p.m_num as int, p.f_num as int, p.d_num as int, p.r_num as int, p.x_num as int, p.c_num as int]
}

/// The placement after the first `k` cells of a column-by-column scan.
pub open spec fn placed_after(counts: Seq<int>, source: Seq<bool>, size: int, k: nat) -> Placing
    decreases k,
{
    if k == 0 {
        Placing { phase: 0, counts, worker: (0, 0), boosts: seq![], stopped: false }
    } else {
        let prev = placed_after(counts, source, size, (k - 1) as nat);
        let c = k - 1;
        if value_spec(source, c / size, c % size, size) {
            place(prev, c / size, c % size)
        } else {
            prev
        }
    }
}

/// How many of the placed boosters carry the name `s`.
pub open spec fn named(bs: Seq<(Seq<char>, int, int)>, s: Seq<char>) -> nat
    decreases bs.len(),
{
    if bs.len() == 0 {
        0
    } else {
        named(bs.drop_last(), s) + if bs.last().0 == s {
            1nat
        } else {
            0nat
        }
    }
}

/// Each count of the puzzle, in `stock` order, has fallen from `init` by the
/// number of boosters placed under its letter: B for `m_num`, F for `f_num`,
/// L for `d_num`, R for `r_num`, X for `x_num` and C for `c_num`.
pub open spec fn letters_match(bs: Seq<(Seq<char>, int, int)>, counts: Seq<int>, init: Seq<int>) -> bool {
    &&& counts.len() == 6
    &&& named(bs, "B"@) + counts[0] == init[0]
    &&& named(bs, "F"@) + counts[1] == init[1]
    &&& named(bs, "L"@) + counts[2] == init[2]
    &&& named(bs, "R"@) + counts[3] == init[3]
    &&& named(bs, "X"@) + counts[4] == init[4]
    &&& named(bs, "C"@) + counts[5] == init[5]
}

proof fn lemma_letters_distinct()
    ensures
        "B"@ != "F"@ && "B"@ != "L"@ && "B"@ != "R"@ && "B"@ != "X"@ && "B"@ != "C"@,
        "F"@ != "L"@ && "F"@ != "R"@ && "F"@ != "X"@ && "F"@ != "C"@,
        "L"@ != "R"@ && "L"@ != "X"@ && "L"@ != "C"@,
        "R"@ != "X"@ && "R"@ != "C"@,
        "X"@ != "C"@,
{
    reveal_strlit("B");
    reveal_strlit("F");
    reveal_strlit("L");
    reveal_strlit("R");
    reveal_strlit("X");
    reveal_strlit("C");
    assert("B"@[0] == 'B' && "F"@[0] == 'F' && "L"@[0] == 'L' && "R"@[0] == 'R' && "X"@[0] == 'X' && "C"@[0] == 'C');
}

/// Placing at one cell keeps each count matched with the boosters of its
/// letter.
proof fn lemma_place_letters(st: Placing, x: int, y: int, init: Seq<int>)
    requires
        letters_match(st.boosts, st.counts, init),
    ensures
        letters_match(place(st, x, y).boosts, place(st, x, y).counts, init),
    decreases 7 - st.phase,
{
    if st.stopped || st.phase <= 0 || st.phase >= 7 {
    } else if st.counts[st.phase - 1] == 0 {
        lemma_place_letters(Placing { phase: st.phase + 1, ..st }, x, y, init);
    } else {
        lemma_letters_distinct();
        reveal_strlit("B");
        reveal_strlit("F");
        reveal_strlit("L");
        reveal_strlit("R");
        reveal_strlit("X");
        reveal_strlit("C");
        let bs2 = st.boosts.push((boost_name(st.phase), x, y));
        assert(bs2.drop_last() =~= st.boosts);
    }
}

/// The boosters a task places are named by the count each was taken from:
/// after any number of cells, every count of the puzzle has fallen by the
/// number of boosters placed under its letter (B for `m_num`, F for `f_num`,
/// L for `d_num`, R for `r_num`, X for `x_num`, C for `c_num`). With
/// `Task::new`, whose boosters are `placed_after(...).boosts` and whose
/// final counts are `placed_after(...).counts`, this is what the task holds.
pub proof fn lemma_task_letters(counts: Seq<int>, source: Seq<bool>, size: int, k: nat)
    requires
        counts.len() == 6,
    ensures
        letters_match(placed_after(counts, source, size, k).boosts, placed_after(counts, source, size, k).counts, counts),
    decreases k,
{
    if k == 0 {
        let p0 = placed_after(counts, source, size, 0);
        assert(p0.boosts.len() == 0);
    } else {
        lemma_task_letters(counts, source, size, (k - 1) as nat);
        let prev = placed_after(counts, source, size, (k - 1) as nat);
        let c = k - 1;
        if value_spec(source, c / size, c % size, size) {
            lemma_place_letters(prev, c / size, c % size, counts);
        }
    }
}

/// A state of the walk around the region: position, heading, the heading's
/// number and the corners met so far.
pub struct Walk {
    pub x: int,
    pub y: int,
    pub dx: int,
    pub dy: int,
    pub dir: int,
    pub pts: Seq<(int, int)>,
}

/// The corner met on a right turn with heading number `dir` at cell `(x, y)`.
pub open spec fn right_corner(dir: int, x: int, y: int) -> (int, int) {
    if dir == 0 {
        (x, y)
    } else if dir == 1 {
        (x, y + 1)
    } else if dir == 2 {
        (x + 1, y + 1)
    } else {
        (x + 1, y)
    }
}

/// The corner met on a left turn with heading number `dir` at cell `(x, y)`.
pub open spec fn left_corner(dir: int, x: int, y: int) -> (int, int) {
    if dir == 0 {
        (x + 1, y)
    } else if dir == 1 {
        (x, y)
    } else if dir == 2 {
        (x, y + 1)
    } else {
        (x + 1, y + 1)
    }
}

/// The two corners met on turning back with heading number `dir` at `(x, y)`.
pub open spec fn back_corners(dir: int, x: int, y: int) -> Seq<(int, int)> {
    if dir == 0 {
        seq![(x + 1, y), (x + 1, y + 1)]
    } else if dir == 1 {
        seq![(x, y), (x + 1, y)]
    } else if dir == 2 {
        seq![(x, y + 1), (x, y)]
    } else {
        seq![(x + 1, y + 1), (x, y + 1)]
    }
}

/// One step of the walk that keeps the region on its right: step ahead,
/// then turn right where the right-hand cell is set, go on where the cell
/// ahead is set, turn left where the left-hand cell is set, else turn back.
pub open spec fn walk_step(src: Seq<bool>, size: int, w: Walk) -> Walk {
    let x = w.x + w.dx;
    let y = w.y + w.dy;
    if value_spec(src, x + w.dy, y - w.dx, size) {
        Walk { x, y, dx: w.dy, dy: -w.dx, dir: (w.dir + 1) % 4, pts: w.pts.push(right_corner(w.dir, x, y)) }
    } else if value_spec(src, x + w.dx, y + w.dy, size) {
        Walk { x, y, ..w }
    } else if value_spec(src, x - w.dy, y + w.dx, size) {
        Walk { x, y, dx: -w.dy, dy: w.dx, dir: (w.dir + 3) % 4, pts: w.pts.push(left_corner(w.dir, x, y)) }
    } else {
        Walk { x, y, dx: -w.dx, dy: -w.dy, dir: (w.dir + 2) % 4, pts: w.pts + back_corners(w.dir, x, y) }
    }
}

/// The walk after `n` steps from the worker, heading right.
pub open spec fn walk_after(src: Seq<bool>, size: int, worker: (int, int), n: nat) -> Walk
    decreases n,
{
    if n == 0 {
        Walk { x: worker.0, y: worker.1, dx: 1, dy: 0, dir: 0, pts: seq![worker] }
    } else {
        walk_step(src, size, walk_after(src, size, worker, (n - 1) as nat))
    }
}

/// After `n > 0` steps the walk is back at the worker.
pub open spec fn closes_at(src: Seq<bool>, size: int, worker: (int, int), n: nat) -> bool {
    n > 0 && walk_after(src, size, worker, n).x == worker.0 && walk_after(src, size, worker, n).y == worker.1
}

/// For its first `n` steps the walk stays within two cells of the grid.
pub open spec fn walk_near(src: Seq<bool>, size: int, worker: (int, int), n: nat) -> bool {
    forall|k: nat|
        k <= n ==> -2 <= #[trigger] walk_after(src, size, worker, k).x <= size + 2 && -2 <= walk_after(
            src,
            size,
            worker,
            k,
        ).y <= size + 2
}

/// The corners before the last visit of `w`.
pub open spec fn trim(pts: Seq<(int, int)>, w: (int, int)) -> Seq<(int, int)>
    decreases pts.len(),
{
    if pts.len() == 0 {
        pts
    } else if pts.last() == w {
        pts.drop_last()
    } else {
        trim(pts.drop_last(), w)
    }
}

/// A chain-puzzle answer: the corners of the region's outline, the boosters
/// and the worker's cell.
#[derive(Debug)]
pub struct Task {
    pub map: Vec<(i32, i32)>,
    pub boosts: Vec<(String, i32, i32)>,
    pub worker: (i32, i32),
}

pub open spec fn boosts_view(b: Seq<(String, i32, i32)>) -> Seq<(Seq<char>, int, int)> {
    b.map_values(|e: (String, i32, i32)| (e.0@, e.1 as int, e.2 as int))
}

pub open spec fn points_view(m: Seq<(i32, i32)>) -> Seq<(int, int)> {
    m.map_values(|e: (i32, i32)| (e.0 as int, e.1 as int))
}

proof fn lemma_walk_start(src: Seq<bool>, size: int, worker: (int, int), n: nat)
    ensures
        walk_after(src, size, worker, n).pts.len() >= 1,
        walk_after(src, size, worker, n).pts[0] == worker,
        0 <= walk_after(src, size, worker, n).dir < 4,
        -1 <= walk_after(src, size, worker, n).dx <= 1,
        -1 <= walk_after(src, size, worker, n).dy <= 1,
    decreases n,
{
    if n > 0 {
        lemma_walk_start(src, size, worker, (n - 1) as nat);
    }
}

/// The walk from the worker closes, with its corners ordered along it.
pub open spec fn walk_closes(src: Seq<bool>, size: int, worker: (int, int)) -> bool {
    exists|n: nat| closes_at(src, size, worker, n) && walk_near(src, size, worker, n)
}

/// Every booster count leaves room for one decrement per grid cell.
pub open spec fn stock_ok(counts: Seq<int>, size: int) -> bool {
    forall|i: int| 0 <= i < 6 ==> #[trigger] counts[i] >= i32::MIN + size * size
}

impl Task {
    /// Builds the answer for the region `source`: the worker goes to the
    /// first set cell of a column-by-column scan and the boosters to the
    /// following ones, taken from the puzzle's counts; the outline is the
    /// list of corners met walking around the region from the worker,
    /// ending before the corner where the walk closes.
    pub fn new(puzzle: &mut Puzzle, source: &Vec<bool>) -> (r: Task)
        requires
            map_ok(source@, old(puzzle).size as int),
            stock_ok(stock(old(puzzle)), old(puzzle).size as int),
            walk_closes(
                source@,
                old(puzzle).size as int,
                placed_after(stock(old(puzzle)), source@, old(puzzle).size as int, (old(puzzle).size * old(puzzle).size) as nat).worker,
            ),
        ensures
            ({
                let pl = placed_after(stock(old(puzzle)), source@, old(puzzle).size as int, (old(puzzle).size * old(puzzle).size) as nat);
                &&& (r.worker.0 as int, r.worker.1 as int) == pl.worker
                &&& boosts_view(r.boosts@) == pl.boosts
                &&& stock(final(puzzle)) == pl.counts
                &&& exists|n: nat|
                    closes_at(source@, old(puzzle).size as int, pl.worker, n) && (forall|j: nat|
                        0 < j < n ==> !#[trigger] closes_at(source@, old(puzzle).size as int, pl.worker, j)) && points_view(r.map@)
                        == trim(walk_after(source@, old(puzzle).size as int, pl.worker, n).pts, pl.worker)
            }),
            final(puzzle).size == old(puzzle).size,
            final(puzzle).v_min == old(puzzle).v_min,
            final(puzzle).v_max == old(puzzle).v_max,
            final(puzzle).white_list@ == old(puzzle).white_list@,
            final(puzzle).black_list@ == old(puzzle).black_list@,
    {
        let size = puzzle.size;
        let ghost c0 = stock(puzzle);
        let ghost src = source@;
        let ghost sz = size as int;
        let mut phase: i32 = 0;
        let mut worker: (i32, i32) = (0, 0);
        let mut boosts: Vec<(String, i32, i32)> = Vec::new();
        let mut stopped = false;
        proof {
            assert(size < 46341) by (nonlinear_arith)
                requires
                    0 <= size,
                    size * size <= i32::MAX,
            ;
            assert(boosts_view(boosts@) =~= Seq::<(Seq<char>, int, int)>::empty());
            assert(0 * size == 0);
        }
        for x in 0..size
            invariant
                size == puzzle.size,
                sz == size,
                map_ok(src, sz),
                src == source@,
                stock_ok(c0, sz),
                puzzle.v_min == old(puzzle).v_min,
                puzzle.v_max == old(puzzle).v_max,
                puzzle.white_list@ == old(puzzle).white_list@,
                puzzle.black_list@ == old(puzzle).black_list@,
                c0 == stock(old(puzzle)),
                forall|i: int| 0 <= i < 6 ==> #[trigger] stock(puzzle)[i] >= c0[i] - x * size,
                placed_after(c0, src, sz, (x * size) as nat) == (Placing {
                    phase: phase as int,
                    counts: stock(puzzle),
                    worker: (worker.0 as int, worker.1 as int),
                    boosts: boosts_view(boosts@),
                    stopped,
                }),
                0 <= phase <= 7,
        {
            proof {
                assert(x * size + size <= size * size) by (nonlinear_arith)
                    requires
                        0 <= x < size,
                ;
            }
            for y in 0..size
                invariant
                    size == puzzle.size,
                    sz == size,
                    0 <= x < size,
                    x * size + size <= size * size,
                    map_ok(src, sz),
                    src == source@,
                    stock_ok(c0, sz),
                    puzzle.v_min == old(puzzle).v_min,
                    puzzle.v_max == old(puzzle).v_max,
                    puzzle.white_list@ == old(puzzle).white_list@,
                    puzzle.black_list@ == old(puzzle).black_list@,
                    c0 == stock(old(puzzle)),
                    forall|i: int| 0 <= i < 6 ==> #[trigger] stock(puzzle)[i] >= c0[i] - (x * size + y),
                    placed_after(c0, src, sz, (x * size + y) as nat) == (Placing {
                        phase: phase as int,
                        counts: stock(puzzle),
                        worker: (worker.0 as int, worker.1 as int),
                        boosts: boosts_view(boosts@),
                        stopped,
                    }),
                    0 <= phase <= 7,
            {
                let ghost k = (x * size + y) as nat;
                let ghost st0 = placed_after(c0, src, sz, k);
                proof {
                    vstd::arithmetic::div_mod::lemma_fundamental_div_mod_converse(k as int, sz, x as int, y as int);
                }
                if !stopped && value_at(source, x, y, size) {
                    loop
                        invariant_except_break
                            !stopped,
                            forall|i: int| 0 <= i < 6 ==> #[trigger] stock(puzzle)[i] >= c0[i] - (x * size + y),
                            place(st0, x as int, y as int) == place(Placing {
                                phase: phase as int,
                                counts: stock(puzzle),
                                worker: (worker.0 as int, worker.1 as int),
                                boosts: boosts_view(boosts@),
                                stopped,
                            }, x as int, y as int),
                            0 <= phase <= 7,
                        invariant
                            size == puzzle.size,
                            0 <= x < size,
                            0 <= y < size,
                            x * size + y < size * size,
                            stock_ok(c0, sz),
                            sz == size,
                            puzzle.v_min == old(puzzle).v_min,
                            puzzle.v_max == old(puzzle).v_max,
                            puzzle.white_list@ == old(puzzle).white_list@,
                            puzzle.black_list@ == old(puzzle).black_list@,
                        ensures
                            place(st0, x as int, y as int) == (Placing {
                                phase: phase as int,
                                counts: stock(puzzle),
                                worker: (worker.0 as int, worker.1 as int),
                                boosts: boosts_view(boosts@),
                                stopped,
                            }),
                            forall|i: int| 0 <= i < 6 ==> #[trigger] stock(puzzle)[i] >= c0[i] - (x * size + y) - 1,
                            0 <= phase <= 7,
                            puzzle.v_min == old(puzzle).v_min,
                            puzzle.v_max == old(puzzle).v_max,
                            puzzle.white_list@ == old(puzzle).white_list@,
                            puzzle.black_list@ == old(puzzle).black_list@,
                            size == puzzle.size,
                        decreases 7 - phase,
                    {
                        let ghost before = boosts@;
                        if phase == 0 {
                            worker = (x, y);
                            phase = 1;
                            break;
                        } else if phase >= 7 {
                            stopped = true;
                            break;
                        } else {
                            let count = if phase == 1 {
                                puzzle.m_num
                            } else if phase == 2 {
                                puzzle.f_num
                            } else if phase == 3 {
                                puzzle.d_num
                            } else if phase == 4 {
                                puzzle.r_num
                            } else if phase == 5 {
                                puzzle.x_num
                            } else {
                                puzzle.c_num
                            };
                            assert(count == stock(puzzle)[phase - 1]);
                            if count == 0 {
                                phase = phase + 1;
                            } else {
                                let name = if phase == 1 {
                                    "B"
                                } else if phase == 2 {
                                    "F"
                                } else if phase == 3 {
                                    "L"
                                } else if phase == 4 {
                                    "R"
                                } else if phase == 5 {
                                    "X"
                                } else {
                                    "C"
                                };
                                assert(name@ == boost_name(phase as int));
                                let ghost counts0 = stock(puzzle);
                                if phase == 1 {
                                    puzzle.m_num = puzzle.m_num - 1;
                                } else if phase == 2 {
                                    puzzle.f_num = puzzle.f_num - 1;
                                } else if phase == 3 {
                                    puzzle.d_num = puzzle.d_num - 1;
                                } else if phase == 4 {
                                    puzzle.r_num = puzzle.r_num - 1;
                                } else if phase == 5 {
                                    puzzle.x_num = puzzle.x_num - 1;
                                } else {
                                    puzzle.c_num = puzzle.c_num - 1;
                                }
                                assert(stock(puzzle) =~= counts0.update(phase - 1, counts0[phase - 1] - 1));
                                let label = name.to_string();
                                boosts.push((label, x, y));
                                assert(boosts_view(boosts@) =~= boosts_view(before).push((boost_name(phase as int), x as int, y as int)));
                                break;
                            }
                        }
                    }
                }
                proof {
                    assert(placed_after(c0, src, sz, k + 1) == (if value_spec(src, x as int, y as int, sz) {
                        place(st0, x as int, y as int)
                    } else {
                        st0
                    }));
                }
            }
            proof {
                assert((x + 1) * size == x * size + size) by (nonlinear_arith);
            }
        }
        let ghost pl = placed_after(c0, src, sz, (size * size) as nat);
        proof {
            assert(size * size == size * size);
        }
        let ghost wk = (worker.0 as int, worker.1 as int);
        let ghost n_close = choose|n: nat| closes_at(src, sz, wk, n) && walk_near(src, sz, wk, n);
        let mut map: Vec<(i32, i32)> = Vec::new();
        let mut x = worker.0;
        let mut y = worker.1;
        let mut dx: i32 = 1;
        let mut dy: i32 = 0;
        let mut dir: i32 = 0;
        map.push((x, y));
        let ghost mut k: nat = 0;
        proof {
            assert(points_view(map@) =~= seq![wk]);
        }
        loop
            invariant_except_break
                k < n_close,
                forall|j: nat| 0 < j <= k ==> !#[trigger] closes_at(src, sz, wk, j),
            invariant
                map_ok(src, sz),
                src == source@,
                sz == size,
                size < 46341,
                wk == (worker.0 as int, worker.1 as int),
                closes_at(src, sz, wk, n_close),
                walk_near(src, sz, wk, n_close),
                k <= n_close,
                walk_after(src, sz, wk, k) == (Walk {
                    x: x as int,
                    y: y as int,
                    dx: dx as int,
                    dy: dy as int,
                    dir: dir as int,
                    pts: points_view(map@),
                }),
            ensures
                closes_at(src, sz, wk, k),
                forall|j: nat| 0 < j < k ==> !#[trigger] closes_at(src, sz, wk, j),
                walk_after(src, sz, wk, k).pts == points_view(map@),
            decreases n_close - k,
        {
            proof {
                lemma_walk_start(src, sz, wk, k);
                assert(walk_after(src, sz, wk, k).x == x);
                assert(-2 <= x <= size + 2 && -2 <= y <= size + 2);
            }
            let ghost pv = points_view(map@);
            let ghost d0 = dir as int;
            x = x + dx;
            y = y + dy;
            if value_at(source, x + dy, y - dx, size) {
                let c = if dir == 0 {
                    (x, y)
                } else if dir == 1 {
                    (x, y + 1)
                } else if dir == 2 {
                    (x + 1, y + 1)
                } else {
                    (x + 1, y)
                };
                map.push(c);
                let tmp = dx;
                dx = dy;
                dy = -tmp;
                dir = (dir + 1) % 4;
                assert(points_view(map@) =~= pv.push(right_corner(d0, x as int, y as int)));
            } else if value_at(source, x + dx, y + dy, size) {
            } else if value_at(source, x - dy, y + dx, size) {
                let c = if dir == 0 {
                    (x + 1, y)
                } else if dir == 1 {
                    (x, y)
                } else if dir == 2 {
                    (x, y + 1)
                } else {
                    (x + 1, y + 1)
                };
                map.push(c);
                let tmp = dx;
                dx = -dy;
                dy = tmp;
                dir = (dir + 3) % 4;
                assert(points_view(map@) =~= pv.push(left_corner(d0, x as int, y as int)));
            } else {
                let (c1, c2) = if dir == 0 {
                    ((x + 1, y), (x + 1, y + 1))
                } else if dir == 1 {
                    ((x, y), (x + 1, y))
                } else if dir == 2 {
                    ((x, y + 1), (x, y))
                } else {
                    ((x + 1, y + 1), (x, y + 1))
                };
                map.push(c1);
                map.push(c2);
                dx = -dx;
                dy = -dy;
                dir = (dir + 2) % 4;
                assert(points_view(map@) =~= pv + back_corners(d0, x as int, y as int));
            }
            proof {
                k = k + 1;
            }
            if x == worker.0 && y == worker.1 {
                break;
            }
        }
        proof {
            lemma_walk_start(src, sz, wk, k);
        }
        loop
            invariant_except_break
                map@.len() >= 1,
                points_view(map@)[0] == wk,
                trim(points_view(map@), wk) == trim(walk_after(src, sz, wk, k).pts, wk),
            invariant
                wk == (worker.0 as int, worker.1 as int),
            ensures
                points_view(map@) == trim(walk_after(src, sz, wk, k).pts, wk),
            decreases map@.len(),
        {
            let ghost pv = points_view(map@);
            let point = map.pop().unwrap();
            proof {
                assert(points_view(map@) =~= pv.drop_last());
                assert(pv.last() == (point.0 as int, point.1 as int));
            }
            if point.0 == worker.0 && point.1 == worker.1 {
                break;
            }
            proof {
                if map@.len() == 0 {
                    assert(pv.len() == 1);
                    assert(pv[0] == pv.last());
                }
                assert(points_view(map@)[0] == pv[0]);
            }
        }
        Task { map, boosts, worker }
    }
}

} // verus!
