//! Building a chain puzzle from its conditions, and carving the region: a
//! cut that starts at a forbidden cell and runs straight until it meets a
//! cleared cell, turning at required cells.
use vstd::prelude::*;
use crate::chain::{map_ok, points_ok, rest_points, value_spec, Puzzle};
use crate::desc::{Cond, DescError, nat_point};
use rand::rngs::ThreadRng;
use rand::Rng;

verus! {

/// The distinct points of `s`, each where it first occurs.
pub open spec fn uniq(s: Seq<(nat, nat)>) -> Seq<(nat, nat)>
    decreases s.len(),
{
    if s.len() == 0 {
        s
    } else {
        let r = uniq(s.drop_last());
        if r.contains(s.last()) {
            r
        } else {
            r.push(s.last())
        }
    }
}

proof fn lemma_uniq(s: Seq<(nat, nat)>)
    ensures
        forall|p: (nat, nat)| uniq(s).contains(p) <==> s.contains(p),
        uniq(s).no_duplicates(),
    decreases s.len(),
{
    if s.len() > 0 {
        lemma_uniq(s.drop_last());
        let r = uniq(s.drop_last());
        assert forall|p: (nat, nat)| uniq(s).contains(p) <==> s.contains(p) by {
            if s.contains(p) {
                let k = choose|k: int| 0 <= k < s.len() && s[k] == p;
                if k < s.len() - 1 {
                    assert(s.drop_last()[k] == p);
                }
            }
            if s.drop_last().contains(p) {
                let k = choose|k: int| 0 <= k < s.drop_last().len() && s.drop_last()[k] == p;
                assert(s[k] == p);
            }
            if !r.contains(s.last()) {
                assert(r.push(s.last())[r.len() as int] == s.last());
                if r.push(s.last()).contains(p) && p != s.last() {
                    let k = choose|k: int| 0 <= k < r.len() + 1 && r.push(s.last())[k] == p;
                    assert(r[k] == p);
                }
                if r.contains(p) {
                    let k = choose|k: int| 0 <= k < r.len() && r[k] == p;
                    assert(r.push(s.last())[k] == p);
                }
            }
        }
    }
}

/// A list of grid points whose natural pairs are distinct is itself
/// without repeats.
proof fn lemma_view_distinct(v: Seq<(i32, i32)>, size: int)
    requires
        points_ok(v, size),
        list_view(v).no_duplicates(),
    ensures
        v.no_duplicates(),
{
    assert forall|i: int, j: int| 0 <= i < v.len() && 0 <= j < v.len() && i != j implies v[i] != v[j] by {
        assert(list_view(v)[i] != list_view(v)[j]);
    }
}

/// The points of a list as pairs of naturals.
pub open spec fn list_view(v: Seq<(i32, i32)>) -> Seq<(nat, nat)> {
    v.map_values(|p: (i32, i32)| (p.0 as nat, p.1 as nat))
}

/// The first point of `s` outside the `size` by `size` grid, if any.
pub open spec fn first_outside(s: Seq<(nat, nat)>, size: nat) -> Option<(nat, nat)>
    decreases s.len(),
{
    if s.len() == 0 {
        None
    } else {
        match first_outside(s.drop_last(), size) {
            Some(p) => Some(p),
            None => if s.last().0 >= size || s.last().1 >= size {
                Some(s.last())
            } else {
                None
            },
        }
    }
}

proof fn lemma_first_outside(s: Seq<(nat, nat)>, size: nat)
    ensures
        first_outside(s, size) is None <==> forall|k: int| 0 <= k < s.len() ==> #[trigger] s[k].0 < size && s[k].1 < size,
    decreases s.len(),
{
    if s.len() > 0 {
        lemma_first_outside(s.drop_last(), size);
        if first_outside(s.drop_last(), size) is Some {
            let k = choose|k: int| 0 <= k < s.drop_last().len() && !(s.drop_last()[k].0 < size && s.drop_last()[k].1 < size);
            assert(s[k] == s.drop_last()[k]);
        } else {
            assert forall|k: int| 0 <= k < s.len() - 1 implies #[trigger] s[k].0 < size && s[k].1 < size by {
                assert(s[k] == s.drop_last()[k]);
                assert(s.drop_last()[k].0 < size && s.drop_last()[k].1 < size);
            }
        }
    }
}

/// The distinct points of `pts` as a list, each where it first occurs;
/// `None` names the first one outside the grid.
fn distinct_points(pts: &Vec<(usize, usize)>, size: usize) -> (r: Result<Vec<(i32, i32)>, (usize, usize)>)
    requires
        size <= i32::MAX,
    ensures
        match first_outside(crate::desc::nat_contour(*pts), size as nat) {
            Some(p) => r is Err && nat_point(r->Err_0) == p,
            None => r is Ok && list_view(r->Ok_0@) == uniq(crate::desc::nat_contour(*pts))
                && crate::chain::points_ok(r->Ok_0@, size as int),
        },
{
    let ghost s = crate::desc::nat_contour(*pts);
    let mut out: Vec<(i32, i32)> = Vec::new();
    let mut i: usize = 0;
    while i < pts.len()
        invariant
            i <= pts.len(),
            s == crate::desc::nat_contour(*pts),
            size <= i32::MAX,
            first_outside(s.take(i as int), size as nat) is None,
            list_view(out@) == uniq(s.take(i as int)),
            crate::chain::points_ok(out@, size as int),
        decreases pts.len() - i,
    {
        let p = pts[i];
        assert(s.take(i as int + 1).drop_last() =~= s.take(i as int));
        assert(s.take(i as int + 1).last() == nat_point(p));
        if p.0 >= size || p.1 >= size {
            proof {
                lemma_first_outside_prefix(s, i as int + 1, size as nat);
                lemma_first_outside_grows(s, i as int + 1, s.len() as int, size as nat);
                assert(s.take(s.len() as int) =~= s);
            }
            return Err(p);
        }
        let q = (p.0 as i32, p.1 as i32);
        let mut seen = false;
        let mut k: usize = 0;
        while k < out.len()
            invariant
                k <= out.len(),
                seen <==> exists|j: int| 0 <= j < k && out@[j] == q,
            decreases out.len() - k,
        {
            if out[k].0 == q.0 && out[k].1 == q.1 {
                seen = true;
            }
            k += 1;
        }
        proof {
            let lv = list_view(out@);
            assert(seen <==> lv.contains(nat_point(p))) by {
                if seen {
                    let j = choose|j: int| 0 <= j < k && out@[j] == q;
                    assert(lv[j] == nat_point(p));
                }
                if lv.contains(nat_point(p)) {
                    let j = choose|j: int| 0 <= j < lv.len() && lv[j] == nat_point(p);
                    assert(out@[j] == q);
                }
            }
        }
        if !seen {
            let ghost before = out@;
            out.push(q);
            assert(list_view(out@) =~= list_view(before).push(nat_point(p)));
        }
        i += 1;
    }
    proof {
        assert(s.take(pts.len() as int) =~= s);
    }
    Ok(out)
}

proof fn lemma_first_outside_grows(s: Seq<(nat, nat)>, n: int, m: int, size: nat)
    requires
        0 <= n <= m <= s.len(),
        first_outside(s.take(n), size) is Some,
    ensures
        first_outside(s.take(m), size) == first_outside(s.take(n), size),
    decreases m - n,
{
    if m > n {
        lemma_first_outside_grows(s, n, m - 1, size);
        assert(s.take(m).drop_last() =~= s.take(m - 1));
    }
}

proof fn lemma_first_outside_prefix(s: Seq<(nat, nat)>, n: int, size: nat)
    requires
        0 < n <= s.len(),
        first_outside(s.take(n - 1), size) is None,
    ensures
        s.take(n).drop_last() == s.take(n - 1),
        n == s.len() ==> s.take(n) == s,
{
    assert(s.take(n).drop_last() =~= s.take(n - 1));
    if n == s.len() {
        assert(s.take(n) =~= s);
    }
}

/// The puzzle that a condition text states, or why it cannot be played:
/// from its numbers, the third is the grid size and the fourth to
/// eleventh the corner range and the booster counts.
pub open spec fn puzzle_fields_ok(p: Puzzle, c: Cond) -> bool {
    &&& p.size as nat == c.params@[2] as nat
    &&& p.v_min as nat == c.params@[3] as nat
    &&& p.v_max as nat == c.params@[4] as nat
    &&& p.m_num as nat == c.params@[5] as nat
    &&& p.f_num as nat == c.params@[6] as nat
    &&& p.d_num as nat == c.params@[7] as nat
    &&& p.r_num as nat == c.params@[8] as nat
    &&& p.c_num as nat == c.params@[9] as nat
    &&& p.x_num as nat == c.params@[10] as nat
}

/// The grid of `size` can be analysed.
pub open spec fn size_fits(size: nat) -> bool {
    (size + 2) * (size + 2) <= 0x3fff_ffff
}

impl Puzzle {
    /// Builds the puzzle of a condition text: the size, corner range and
    /// booster counts from its numbers, and the required and forbidden
    /// cells without repeats. A grid too large to analyse, or a listed
    /// cell outside the grid, is refused.
    pub fn from_cond(c: &Cond) -> (r: Result<Puzzle, DescError>)
        requires
            c.params@.len() >= 11,
            forall|k: int| 0 <= k < c.params@.len() ==> #[trigger] c.params@[k] <= i32::MAX,
        ensures
            !size_fits(c.params@[2] as nat) ==> r == Err::<Puzzle, DescError>(DescError::TooLarge),
            size_fits(c.params@[2] as nat) ==> match first_outside(crate::desc::nat_contour(c.white), c.params@[2] as nat) {
                Some(p) => r == Err::<Puzzle, DescError>(DescError::OutOfMap(p.0 as usize, p.1 as usize)),
                None => match first_outside(crate::desc::nat_contour(c.black), c.params@[2] as nat) {
                    Some(p) => r == Err::<Puzzle, DescError>(DescError::OutOfMap(p.0 as usize, p.1 as usize)),
                    None => r is Ok && puzzle_fields_ok(r->Ok_0, *c)
                        && list_view((r->Ok_0).white_list@) == uniq(crate::desc::nat_contour(c.white))
                        && list_view((r->Ok_0).black_list@) == uniq(crate::desc::nat_contour(c.black))
                        && (r->Ok_0).lists_ok(),
                },
            },
    {
        let size = c.params[2];
        if size > 0x7fff {
            assert((size + 2) * (size + 2) > 0x3fff_ffff) by (nonlinear_arith)
                requires size > 0x7fff;
            return Err(DescError::TooLarge);
        }
        assert((size + 2) * (size + 2) <= 0x8001 * 0x8001) by (nonlinear_arith)
            requires size <= 0x7fff;
        if (size + 2) * (size + 2) > 0x3fff_ffff {
            return Err(DescError::TooLarge);
        }
        let white = match distinct_points(&c.white, size) {
            Ok(v) => v,
            Err(p) => return Err(DescError::OutOfMap(p.0, p.1)),
        };
        let black = match distinct_points(&c.black, size) {
            Ok(v) => v,
            Err(p) => return Err(DescError::OutOfMap(p.0, p.1)),
        };
        let r = Puzzle {
            size: size as i32,
            v_min: c.params[3] as i32,
            v_max: c.params[4] as i32,
            m_num: c.params[5] as i32,
            f_num: c.params[6] as i32,
            d_num: c.params[7] as i32,
            r_num: c.params[8] as i32,
            c_num: c.params[9] as i32,
            x_num: c.params[10] as i32,
            white_list: white,
            black_list: black,
        };
        proof {
            lemma_uniq(crate::desc::nat_contour(c.white));
            lemma_uniq(crate::desc::nat_contour(c.black));
            lemma_view_distinct(r.white_list@, size as int);
            lemma_view_distinct(r.black_list@, size as int);
        }
        Ok(r)
    }
}


/// The neighbour offsets, in the order in which a cut looks at them.
pub open spec fn side(i: int) -> (int, int) {
    if i == 0 {
        (0, 1)
    } else if i == 1 {
        (-1, 0)
    } else if i == 2 {
        (0, -1)
    } else {
        (1, 0)
    }
}

/// The state of a cut: the cells so far, where it stands and came from,
/// its heading, how often it turned, and whether it met a cleared cell.
pub struct Cut {
    pub map: Seq<bool>,
    pub point: (int, int),
    pub prev: (int, int),
    pub dir: (int, int),
    pub curves: int,
    pub stopped: bool,
}

/// `list` holds the cell `(x, y)`.
pub open spec fn listed(list: Seq<(i32, i32)>, x: int, y: int) -> bool {
    exists|k: int| 0 <= k < list.len() && list[k].0 == x && list[k].1 == y
}

/// Some neighbour of `p` other than `prev` is cleared, or off the grid.
pub open spec fn meets_cleared(m: Seq<bool>, size: int, p: (int, int), prev: (int, int)) -> bool {
    exists|i: int|
        0 <= i < 4 && (p.0 + side(i).0, p.1 + side(i).1) != prev && !#[trigger] value_spec(
            m,
            p.0 + side(i).0,
            p.1 + side(i).1,
            size,
        )
}

/// One round of a cut: clear the current cell; before a required cell
/// turn a quarter to the left; else stop when a neighbour other than the
/// cell it came from is cleared; else step ahead.
pub open spec fn cut_step(white: Seq<(i32, i32)>, size: int, c: Cut) -> Cut {
    let m = c.map.update(c.point.1 * size + c.point.0, false);
    let f = (c.point.0 + c.dir.0, c.point.1 + c.dir.1);
    if listed(white, f.0, f.1) {
        Cut { map: m, point: c.point, prev: c.prev, dir: (-c.dir.1, c.dir.0), curves: c.curves + 1, stopped: false }
    } else if meets_cleared(m, size, c.point, c.prev) {
        Cut { map: m, point: c.point, prev: c.prev, dir: c.dir, curves: c.curves, stopped: true }
    } else {
        Cut { map: m, point: f, prev: c.point, dir: c.dir, curves: c.curves, stopped: false }
    }
}

/// The cut after `n` rounds.
pub open spec fn cut_after(white: Seq<(i32, i32)>, size: int, c: Cut, n: nat) -> Cut
    decreases n,
{
    if n == 0 {
        c
    } else {
        cut_step(white, size, cut_after(white, size, c, (n - 1) as nat))
    }
}

/// A cut goes on while it has turned fewer than fifty times and met no
/// cleared cell.
pub open spec fn cutting(c: Cut) -> bool {
    c.curves < 50 && !c.stopped
}

/// The cut ends after exactly `n` rounds.
pub open spec fn cut_stops_at(white: Seq<(i32, i32)>, size: int, st: Cut, n: nat) -> bool {
    &&& !cutting(cut_after(white, size, st, n))
    &&& forall|k: nat| k < n ==> cutting(#[trigger] cut_after(white, size, st, k))
}

/// A cut that starts at `p` heading `dir`.
pub open spec fn cut_start(map: Seq<bool>, p: (int, int), dir: (int, int)) -> Cut {
    Cut { map, point: p, prev: p, dir, curves: 0, stopped: false }
}

/// The cells left set in `s`.
pub open spec fn trues(s: Seq<bool>) -> nat
    decreases s.len(),
{
    if s.len() == 0 {
        0
    } else {
        trues(s.drop_last()) + if s.last() {
            1nat
        } else {
            0nat
        }
    }
}

proof fn lemma_trues_clear(s: Seq<bool>, i: int)
    requires
        0 <= i < s.len(),
    ensures
        trues(s.update(i, false)) + (if s[i] { 1int } else { 0int }) == trues(s),
    decreases s.len(),
{
    if i < s.len() - 1 {
        lemma_trues_clear(s.drop_last(), i);
        assert(s.update(i, false).drop_last() =~= s.drop_last().update(i, false));
    } else {
        assert(s.update(i, false).drop_last() =~= s.drop_last());
    }
}

/// A unit step along an axis.
pub open spec fn unit(d: (int, int)) -> bool {
    (d.0 == 0 && (d.1 == 1 || d.1 == -1)) || (d.1 == 0 && (d.0 == 1 || d.0 == -1))
}

/// `list` holds `(x, y)`.
fn is_listed(list: &Vec<(i32, i32)>, x: i32, y: i32) -> (r: bool)
    ensures
        r == listed(list@, x as int, y as int),
{
    let mut k: usize = 0;
    while k < list.len()
        invariant
            k <= list.len(),
            forall|j: int| 0 <= j < k ==> !(list@[j].0 == x && list@[j].1 == y),
        decreases list.len() - k,
    {
        if list[k].0 == x && list[k].1 == y {
            return true;
        }
        k += 1;
    }
    false
}

fn side_of(i: u8) -> (r: (i32, i32))
    requires
        i < 4,
    ensures
        r.0 == side(i as int).0,
        r.1 == side(i as int).1,
{
    if i == 0 {
        (0, 1)
    } else if i == 1 {
        (-1, 0)
    } else if i == 2 {
        (0, -1)
    } else {
        (1, 0)
    }
}

/// Cuts from `start` heading `dir`: rounds of `cut_step` while the cut goes
/// on; the map ends as the cut left it. A cut clears its first cell, only
/// clears cells, and clears no required cell but possibly `start`.
pub fn cut(white: &Vec<(i32, i32)>, map: &mut Vec<bool>, size: i32, start: (i32, i32), dir: (i32, i32))
    requires
        map_ok(old(map)@, size as int),
        0 <= start.0 < size,
        0 <= start.1 < size,
        unit((dir.0 as int, dir.1 as int)),
    ensures
        final(map)@.len() == old(map)@.len(),
        exists|n: nat|
            #[trigger] cut_stops_at(
                white@,
                size as int,
                cut_start(old(map)@, (start.0 as int, start.1 as int), (dir.0 as int, dir.1 as int)),
                n,
            ) && final(map)@ == cut_after(
                white@,
                size as int,
                cut_start(old(map)@, (start.0 as int, start.1 as int), (dir.0 as int, dir.1 as int)),
                n,
            ).map,
        forall|j: int| 0 <= j < final(map)@.len() && #[trigger] final(map)@[j] ==> old(map)@[j],
        forall|x: int, y: int|
            0 <= x < size && 0 <= y < size && #[trigger] listed(white@, x, y) && (x, y) != (start.0 as int, start.1 as int)
                ==> value_spec(final(map)@, x, y, size as int) == value_spec(old(map)@, x, y, size as int),
        !final(map)@[start.1 * size + start.0],
{
    let ghost st = cut_start(old(map)@, (start.0 as int, start.1 as int), (dir.0 as int, dir.1 as int));
    let ghost sz = size as int;
    let ghost len = old(map)@.len();
    let mut point = start;
    let mut prev = start;
    let mut dx = dir.0;
    let mut dy = dir.1;
    let mut curve_count: i32 = 0;
    let mut stopped = false;
    let ghost mut n: nat = 0;
    let ghost mut since: int = 0;
    let ghost mut mv: (int, int) = (dir.0 as int, dir.1 as int);
    while curve_count < 50 && !stopped
        invariant
            map@.len() == len,
            map_ok(map@, sz),
            sz == size,
            0 <= point.0 < size,
            0 <= point.1 < size,
            0 <= prev.0 < size,
            0 <= prev.1 < size,
            unit((dx as int, dy as int)),
            0 <= curve_count <= 50,
            0 <= since,
            prev == point || (point.0 - prev.0 == mv.0 && point.1 - prev.1 == mv.1 && unit(mv) && (since == 0 ==> (
            dx as int, dy as int) == mv) && (since == 1 ==> (dx as int, dy as int) == (-mv.1, mv.0))),
            cut_after(white@, sz, st, n) == (Cut {
                map: map@,
                point: (point.0 as int, point.1 as int),
                prev: (prev.0 as int, prev.1 as int),
                dir: (dx as int, dy as int),
                curves: curve_count as int,
                stopped,
            }),
            forall|k: nat| k < n ==> cutting(#[trigger] cut_after(white@, sz, st, k)),
            forall|j: int| 0 <= j < len && #[trigger] map@[j] ==> old(map)@[j],
            forall|x: int, y: int|
                0 <= x < size && 0 <= y < size && #[trigger] listed(white@, x, y) && (x, y) != (start.0 as int, start.1 as int)
                    ==> value_spec(map@, x, y, sz) == value_spec(old(map)@, x, y, sz),
            point == start || !listed(white@, point.0 as int, point.1 as int),
            prev == start || !listed(white@, prev.0 as int, prev.1 as int),
            n == 0 ==> curve_count == 0 && !stopped && point == start,
            0 <= start.0 < size,
            0 <= start.1 < size,
            n > 0 ==> !map@[start.1 * size + start.0],
        decreases 2 * (50 - curve_count) + (if since >= 2 { 2 } else { since }) + (if stopped { 0int } else { 1 }), trues(
            map@.update(point.1 * size + point.0, false),
        ),
    {
        let ghost before = map@;
        let ghost c0 = cut_after(white@, sz, st, n);
        proof {
            crate::grid::lemma_index(point.0 as int, point.1 as int, sz, sz);
        }
        let at = (point.1 * size + point.0) as usize;
        map.set(at, false);
        proof {
            crate::grid::lemma_index(start.0 as int, start.1 as int, sz, sz);
            if n > 0 {
                assert(!before[start.1 * size + start.0]);
            }
            assert(!map@[start.1 * size + start.0]);
            assert forall|x: int, y: int|
                0 <= x < size && 0 <= y < size && #[trigger] listed(white@, x, y) && (x, y) != (start.0 as int, start.1 as int)
                    implies value_spec(map@, x, y, sz) == value_spec(old(map)@, x, y, sz) by {
                crate::grid::lemma_index(x, y, sz, sz);
                if y * sz + x == at as int {
                    crate::grid::lemma_index_injective(x, y, point.0 as int, point.1 as int, sz);
                }
                assert(value_spec(before, x, y, sz) == value_spec(old(map)@, x, y, sz));
            }
        }
        let fx = point.0 + dx;
        let fy = point.1 + dy;
        if is_listed(white, fx, fy) {
            let tmp = dx;
            dx = -dy;
            dy = tmp;
            curve_count += 1;
            proof {
                since = since + 1;
            }
        } else {
            let mut is_hit = false;
            let mut i: u8 = 0;
            while i < 4
                invariant
                    i <= 4,
                    sz == size,
                    map_ok(map@, sz),
                    0 <= point.0 < size,
                    0 <= point.1 < size,
                    is_hit <==> exists|j: int|
                        0 <= j < i && (point.0 + side(j).0, point.1 + side(j).1) != (prev.0 as int, prev.1 as int)
                            && !#[trigger] value_spec(map@, point.0 + side(j).0, point.1 + side(j).1, sz),
                decreases 4 - i,
            {
                let (ddx, ddy) = side_of(i);
                let nx = point.0 + ddx;
                let ny = point.1 + ddy;
                if !(nx == prev.0 && ny == prev.1) {
                    if !crate::chain::value_at(map, nx, ny, size) {
                        is_hit = true;
                    }
                }
                i += 1;
            }
            if is_hit {
                stopped = true;
            } else {
                proof {
                    let m = map@;
                    let f = (fx as int, fy as int);
                    let d = (dx as int, dy as int);
                    let j: int = if d == side(0) { 0 } else if d == side(1) { 1 } else if d == side(2) { 2 } else { 3 };
                    assert(side(j) == d);
                    if f != (prev.0 as int, prev.1 as int) {
                        assert(value_spec(m, point.0 + side(j).0, point.1 + side(j).1, sz));
                        crate::grid::lemma_index(fx as int, fy as int, sz, sz);
                        lemma_trues_clear(m, fy * sz + fx);
                    } else {
                        assert(since >= 2);
                        crate::grid::lemma_index(fx as int, fy as int, sz, sz);
                        lemma_trues_clear(m, fy * sz + fx);
                    }
                    since = 0;
                    mv = d;
                }
                prev = point;
                point = (fx, fy);
            }
        }
        proof {
            n = n + 1;
        }
    }
    assert(cut_stops_at(white@, sz, st, n));
}

/// The cut from `p` heading the `i`-th way ends after `n` rounds and leaves
/// `result`.
pub open spec fn cut_from(
    white: Seq<(i32, i32)>,
    size: int,
    map: Seq<bool>,
    p: (i32, i32),
    i: int,
    n: nat,
    result: Seq<bool>,
) -> bool {
    let st = cut_start(map, (p.0 as int, p.1 as int), side(i));
    &&& 0 <= i < 4
    &&& cut_stops_at(white, size, st, n)
    &&& result == cut_after(white, size, st, n).map
}

/// rand's thread-local generator, `rand::rngs::ThreadRng`, carried through
/// as an opaque value.
#[verifier::external_type_specification]
#[verifier::external_body]
pub struct ExThreadRng(ThreadRng);

/// Calls rand's `Rng::gen_range` on a thread-local generator: a number in
/// `[low, high)`. Which one is left to chance, so nothing more is stated.
#[verifier::external_body]
fn draw(rng: &mut ThreadRng, low: usize, high: usize) -> (r: usize)
    requires
        low < high,
    ensures
        low <= r < high,
{
    rng.gen_range(low, high)
}

impl Puzzle {
    /// One cut at random: from a forbidden cell that the region still
    /// covers, drawn by chance, heading one of the four ways, drawn by
    /// chance. Some such cell must be covered. The cut only clears cells,
    /// never a required cell that is not also forbidden, and leaves fewer
    /// forbidden cells covered.
    pub fn carve_random(&self, map: &mut Vec<bool>, rng: &mut ThreadRng)
        requires
            map_ok(old(map)@, self.size as int),
            self.lists_ok(),
            rest_points(self.black_list@, old(map)@, self.size as int, true).len() > 0,
        ensures
            final(map)@.len() == old(map)@.len(),
            exists|k: int, i: int, n: nat|
                0 <= k < rest_points(self.black_list@, old(map)@, self.size as int, true).len() && #[trigger] cut_from(
                    self.white_list@,
                    self.size as int,
                    old(map)@,
                    rest_points(self.black_list@, old(map)@, self.size as int, true)[k],
                    i,
                    n,
                    final(map)@,
                ),
            forall|j: int| 0 <= j < final(map)@.len() && #[trigger] final(map)@[j] ==> old(map)@[j],
            forall|x: int, y: int|
                0 <= x < self.size && 0 <= y < self.size && #[trigger] listed(self.white_list@, x, y) && !listed(
                    self.black_list@,
                    x,
                    y,
                ) ==> value_spec(final(map)@, x, y, self.size as int) == value_spec(old(map)@, x, y, self.size as int),
            rest_points(self.black_list@, final(map)@, self.size as int, true).len() < rest_points(
                self.black_list@,
                old(map)@,
                self.size as int,
                true,
            ).len(),
    {
        let result = self.analyze(map);
        let index = draw(rng, 0, result.rest_black.len());
        let point = result.rest_black[index];
        let i = draw(rng, 0, 4);
        let dir = side_of(i as u8);
        proof {
            let rest = rest_points(self.black_list@, old(map)@, self.size as int, true);
            assert(rest[index as int] == point);
            crate::chain::lemma_rest_inside(self.black_list@, old(map)@, self.size as int, true);
            assert(rest.contains(point));
            broadcast use vstd::seq::Seq::lemma_filter_contains_rev;
            let j = choose|j: int| 0 <= j < self.black_list@.len() && self.black_list@[j] == point;
            assert(listed(self.black_list@, point.0 as int, point.1 as int));
        }
        cut(&self.white_list, map, self.size, point, dir);
        proof {
            let rest = rest_points(self.black_list@, old(map)@, self.size as int, true);
            assert(side(i as int) == (dir.0 as int, dir.1 as int));
            let n = choose|n: nat|
                #[trigger] cut_stops_at(
                    self.white_list@,
                    self.size as int,
                    cut_start(old(map)@, (point.0 as int, point.1 as int), (dir.0 as int, dir.1 as int)),
                    n,
                ) && map@ == cut_after(
                    self.white_list@,
                    self.size as int,
                    cut_start(old(map)@, (point.0 as int, point.1 as int), (dir.0 as int, dir.1 as int)),
                    n,
                ).map;
            assert(cut_from(self.white_list@, self.size as int, old(map)@, rest[index as int], i as int, n, map@));
            let j = choose|j: int| 0 <= j < self.black_list@.len() && self.black_list@[j] == point;
            self.black_list@.lemma_filter_pred(crate::chain::cell_is(old(map)@, self.size as int, true), index as int);
            crate::chain::lemma_rest_fewer(self.black_list@, old(map)@, map@, self.size as int, j);
        }
    }
}

/// The cell `k` steps from `(x, y)` along `d`.
pub open spec fn ray(x: int, y: int, d: (int, int), k: int) -> (int, int) {
    (x + k * d.0, y + k * d.1)
}

/// The set cells run on from `(x, y)` along `d` for `k` steps, and stop there.
pub open spec fn run_ends(map: Seq<bool>, size: int, x: int, y: int, d: (int, int), k: nat) -> bool {
    &&& forall|i: int| 0 < i <= k ==> #[trigger] value_spec(map, ray(x, y, d, i).0, ray(x, y, d, i).1, size)
    &&& !value_spec(map, ray(x, y, d, k as int + 1).0, ray(x, y, d, k as int + 1).1, size)
}

impl Puzzle {
    /// Walks from `(x, y)` the `i`-th way while the next cell is set, and
    /// clears the cell where the walk stops.
    pub fn nibble(&self, map: &mut Vec<bool>, x: i32, y: i32, i: u8)
        requires
            map_ok(old(map)@, self.size as int),
            0 <= x < self.size,
            0 <= y < self.size,
            i < 4,
        ensures
            exists|k: nat|
                #[trigger] run_ends(old(map)@, self.size as int, x as int, y as int, side(i as int), k) && final(map)@
                    == old(map)@.update(
                    ray(x as int, y as int, side(i as int), k as int).1 * self.size + ray(
                        x as int,
                        y as int,
                        side(i as int),
                        k as int,
                    ).0,
                    false,
                ),
    {
        let (dx, dy) = side_of(i);
        let ghost d = side(i as int);
        let size = self.size;
        let mut cx = x;
        let mut cy = y;
        let ghost mut k: nat = 0;
        loop
            invariant
                map_ok(map@, size as int),
                map@ == old(map)@,
                size == self.size,
                0 <= x < size,
                0 <= y < size,
                0 <= cx < size,
                0 <= cy < size,
                d == (dx as int, dy as int),
                d == side(i as int),
                i < 4,
                (cx as int, cy as int) == ray(x as int, y as int, d, k as int),
                forall|j: int| 0 < j <= k ==> #[trigger] value_spec(map@, ray(x as int, y as int, d, j).0, ray(x as int, y as int, d, j).1, size as int),
            decreases 2 * size - (k as int),
        {
            if crate::chain::value_at(map, cx + dx, cy + dy, size) {
                proof {
                    assert(ray(x as int, y as int, d, k as int + 1) == (cx + dx, cy + dy)) by (nonlinear_arith)
                        requires
                            (cx as int, cy as int) == ray(x as int, y as int, d, k as int),
                            d == (dx as int, dy as int);
                    assert(k < 2 * size) by {
                        lemma_ray_bound(x as int, y as int, d, k as int + 1, size as int);
                    }
                }
                cx += dx;
                cy += dy;
                proof {
                    k = k + 1;
                }
            } else {
                proof {
                    assert(ray(x as int, y as int, d, k as int + 1) == (cx + dx, cy + dy)) by (nonlinear_arith)
                        requires
                            (cx as int, cy as int) == ray(x as int, y as int, d, k as int),
                            d == (dx as int, dy as int);
                    assert(run_ends(old(map)@, size as int, x as int, y as int, d, k));
                    crate::grid::lemma_index(cx as int, cy as int, size as int, size as int);
                }
                map.set((cy * size + cx) as usize, false);
                return;
            }
        }
    }
}

proof fn lemma_ray_bound(x: int, y: int, d: (int, int), k: int, size: int)
    requires
        0 <= x < size,
        0 <= y < size,
        0 < k,
        d == side(0) || d == side(1) || d == side(2) || d == side(3),
        0 <= ray(x, y, d, k).0 < size,
        0 <= ray(x, y, d, k).1 < size,
    ensures
        k < size,
{
}

/// A try at trimming from the cell `(x, y)` heading the `i`-th way: it
/// takes place exactly where the cell is set, and then clears the end of
/// the run of set cells; else the map stays.
pub open spec fn nibble_outcome(map: Seq<bool>, size: int, x: int, y: int, i: int, took: bool, result: Seq<bool>) -> bool {
    &&& 0 <= x < size
    &&& 0 <= y < size
    &&& 0 <= i < 4
    &&& took == value_spec(map, x, y, size)
    &&& took ==> exists|k: nat|
        #[trigger] run_ends(map, size, x, y, side(i), k) && result == map.update(
            ray(x, y, side(i), k as int).1 * size + ray(x, y, side(i), k as int).0,
            false,
        )
    &&& !took ==> result == map
}

impl Puzzle {
    /// A heading for trimming, drawn by chance: one of the four ways of
    /// `side`.
    pub fn draw_heading(rng: &mut ThreadRng) -> (r: u8)
        ensures
            r < 4,
    {
        draw(rng, 0, 4) as u8
    }

    /// One try at trimming the region along `heading`: draws a cell by
    /// chance; when the cell is set, nibbles from it along the heading and
    /// answers `true`, else leaves the map and answers `false`.
    pub fn try_nibble(&self, map: &mut Vec<bool>, rng: &mut ThreadRng, heading: u8) -> (r: bool)
        requires
            map_ok(old(map)@, self.size as int),
            self.size > 0,
            heading < 4,
        ensures
            !r ==> final(map)@ == old(map)@,
            r ==> exists|x: int, y: int, i: int, k: nat|
                0 <= x < self.size && 0 <= y < self.size && 0 <= i < 4 && value_spec(old(map)@, x, y, self.size as int)
                    && #[trigger] run_ends(old(map)@, self.size as int, x, y, side(i), k) && final(map)@ == old(map)@.update(
                    ray(x, y, side(i), k as int).1 * self.size + ray(x, y, side(i), k as int).0,
                    false,
                ) && i == heading,
            exists|x: int, y: int|
                #[trigger] nibble_outcome(old(map)@, self.size as int, x, y, heading as int, r, final(map)@),
    {
        let i = heading;
        let x = draw(rng, 0, self.size as usize) as i32;
        let y = draw(rng, 0, self.size as usize) as i32;
        if crate::chain::value_at(map, x, y, self.size) {
            self.nibble(map, x, y, i);
            assert(nibble_outcome(old(map)@, self.size as int, x as int, y as int, i as int, true, map@));
            true
        } else {
            assert(nibble_outcome(old(map)@, self.size as int, x as int, y as int, i as int, false, map@));
            false
        }
    }
}

} // verus!
